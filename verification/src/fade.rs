//! The bookkeeping of the cross-fades between terrain meshes of different levels.
//!
//! When a mesh is replaced, the old one is kept for a while and both are drawn, each on part of
//! the pixels, so that the change of detail does not jump. This keeps the list of new meshes
//! fading in and of old meshes fading out, with the time each fade started. Times are of any
//! type `S`; whether a fade is still running is decided by the caller (`finish`), and so is how
//! far it has come.
use vstd::prelude::*;
use crate::loader::MeshKey;

verus! {

/// Fades at most this many meshes at once (new and old counted apart); beyond, meshes switch
/// without a fade.
pub const MAX_FADE_ENTRIES: usize = 2048;

/// An old mesh fading out.
pub struct Outgoing<T, S> {
    /// The mesh it was.
    pub key: MeshKey,
    /// The old mesh itself.
    pub mesh: T,
    /// When its fade started.
    pub start_ms: S,
}

/// The meshes fading in (with the start of their fade) and the old meshes fading out.
pub struct Fades<T, S> {
    incoming: Vec<(MeshKey, S)>,
    outgoing: Vec<Outgoing<T, S>>,
}

/// Whether the keys of `s` are distinct.
pub open spec fn distinct_meshes<S>(s: Seq<(MeshKey, S)>) -> bool {
    forall|i: int, j: int| 0 <= i < s.len() && 0 <= j < s.len() && i != j ==> #[trigger] s[i].0
        != #[trigger] s[j].0
}

/// The start of the fade-in of `key` in `s`, if it fades in.
pub open spec fn start_of<S>(s: Seq<(MeshKey, S)>, key: MeshKey) -> Option<S>
    decreases s.len(),
{
    if s.len() == 0 {
        None
    } else if s.last().0 == key {
        Some(s.last().1)
    } else {
        start_of(s.drop_last(), key)
    }
}

/// The start reported for a mesh is the start of an entry of that very mesh: there is one
/// exactly when the mesh has an entry, and with distinct meshes it is the start of its entry.
pub proof fn lemma_start_of<S>(s: Seq<(MeshKey, S)>, key: MeshKey)
    ensures
        start_of(s, key) is Some <==> exists|i: int| 0 <= i < s.len() && (#[trigger] s[i]).0 == key,
        start_of(s, key) matches Some(x) ==> exists|i: int|
            0 <= i < s.len() && #[trigger] s[i] == (key, x),
        distinct_meshes(s) ==> forall|i: int|
            0 <= i < s.len() && (#[trigger] s[i]).0 == key ==> start_of(s, key) == Some(s[i].1),
    decreases s.len(),
{
    if s.len() > 0 {
        let d = s.drop_last();
        lemma_start_of(d, key);
        let n = s.len() - 1;
        assert(forall|i: int| 0 <= i < d.len() ==> #[trigger] d[i] == s[i]);
        if s.last().0 == key {
            assert(s[n] == (key, s.last().1));
            if distinct_meshes(s) {
                assert forall|i: int| 0 <= i < s.len() && (#[trigger] s[i]).0 == key implies start_of(
                    s,
                    key,
                ) == Some(s[i].1) by {
                    if i != n {
                        assert(s[i].0 != s[n].0);
                    }
                }
            }
        } else {
            if exists|i: int| 0 <= i < s.len() && (#[trigger] s[i]).0 == key {
                let i = choose|i: int| 0 <= i < s.len() && (#[trigger] s[i]).0 == key;
                assert(i != n);
                assert(d[i].0 == key);
            }
            if start_of(s, key) is Some {
                let x = start_of(s, key)->0;
                let i = choose|i: int| 0 <= i < d.len() && #[trigger] d[i] == (key, x);
                assert(s[i] == (key, x));
            }
            if distinct_meshes(s) {
                assert(distinct_meshes(d)) by {
                    assert forall|i: int, j: int|
                        0 <= i < d.len() && 0 <= j < d.len() && i != j implies #[trigger] d[i].0
                        != #[trigger] d[j].0 by {
                        assert(s[i].0 != s[j].0);
                    }
                }
                assert forall|i: int| 0 <= i < s.len() && (#[trigger] s[i]).0 == key implies start_of(
                    s,
                    key,
                ) == Some(s[i].1) by {
                    assert(i != n);
                    assert(d[i].0 == key);
                }
            }
        }
    }
}

/// Dropping the entries of one mesh leaves the start of every other mesh as it was.
proof fn lemma_start_of_filter<S>(s: Seq<(MeshKey, S)>, key: MeshKey, other: MeshKey)
    requires
        other != key,
    ensures
        start_of(s.filter(|e: (MeshKey, S)| e.0 != key), other) == start_of(s, other),
    decreases s.len(),
{
    reveal(Seq::filter);
    if s.len() > 0 {
        lemma_start_of_filter(s.drop_last(), key, other);
        let f = s.drop_last().filter(|e: (MeshKey, S)| e.0 != key);
        if s.last().0 != key {
            assert(f.push(s.last()).drop_last() =~= f);
        }
    }
}

/// After `replace` of `key` at `now` (as its `ensures` gives the meshes fading in), the fade-in
/// of `key` starts at `now`, whatever other meshes fade in, and the start of every other mesh is
/// what it was before.
pub proof fn lemma_replace_start<S>(s: Seq<(MeshKey, S)>, key: MeshKey, now: S, other: MeshKey)
    ensures
        start_of(s.filter(|e: (MeshKey, S)| e.0 != key).push((key, now)), key) == Some(now),
        other != key ==> start_of(s.filter(|e: (MeshKey, S)| e.0 != key).push((key, now)), other)
            == start_of(s, other),
{
    let f = s.filter(|e: (MeshKey, S)| e.0 != key);
    assert(f.push((key, now)).drop_last() =~= f);
    if other != key {
        lemma_start_of_filter(s, key, other);
    }
}

/// Whether `a` and `b` are the same mesh.
fn same_mesh(a: MeshKey, b: MeshKey) -> (r: bool)
    ensures
        r == (a == b),
{
    a.0 == b.0 && a.1 == b.1 && a.2 == b.2
}

/// Keeps, in order, the items of `v` for which `f` holds (`f` computes `pred`).
fn retain_items<X, F: Fn(&X) -> bool>(v: &mut Vec<X>, f: &F, Ghost(pred): Ghost<spec_fn(X) -> bool>)
    requires
        forall|x: X| #[trigger] f.requires((&x,)),
        forall|x: X, b: bool| f.ensures((&x,), b) ==> b == pred(x),
    ensures
        final(v)@ == old(v)@.filter(pred),
{
    let ghost orig = v@;
    let mut rev: Vec<X> = Vec::new();
    while v.len() > 0
        invariant
            v@.len() + rev@.len() == orig.len(),
            v@ == orig.subrange(0, v@.len() as int),
            forall|i: int| 0 <= i < rev@.len() ==> #[trigger] rev@[i] == orig[orig.len() - 1 - i],
        decreases v@.len(),
    {
        match v.pop() {
            Some(x) => rev.push(x),
            None => {},
        }
    }
    proof {
        assert(orig.subrange(0, 0).filter(pred) =~= Seq::<X>::empty()) by {
            reveal(Seq::filter);
        }
    }
    while rev.len() > 0
        invariant
            forall|x: X| #[trigger] f.requires((&x,)),
            forall|x: X, b: bool| f.ensures((&x,), b) ==> b == pred(x),
            rev@.len() <= orig.len(),
            forall|i: int| 0 <= i < rev@.len() ==> #[trigger] rev@[i] == orig[orig.len() - 1 - i],
            v@ == orig.subrange(0, orig.len() - rev@.len()).filter(pred),
        decreases rev@.len(),
    {
        let ghost k = orig.len() - rev@.len();
        let ghost before = v@;
        match rev.pop() {
            Some(x) => {
                let keep = f(&x);
                proof {
                    assert(x == orig[k]);
                    assert(orig.subrange(0, k + 1) =~= orig.subrange(0, k).push(x));
                    orig.subrange(0, k).lemma_filter_push(x, pred);
                }
                if keep {
                    v.push(x);
                }
            },
            None => {},
        }
    }
    proof {
        assert(orig.subrange(0, orig.len() as int) =~= orig);
    }
}

impl<T, S: Copy> Fades<T, S> {
    /// The meshes fading in, with the start of their fade.
    pub closed spec fn incoming_seq(&self) -> Seq<(MeshKey, S)> {
        self.incoming@
    }

    /// The old meshes fading out, oldest first.
    pub closed spec fn outgoing_seq(&self) -> Seq<Outgoing<T, S>> {
        self.outgoing@
    }

    /// The invariant: a mesh fades in at most once at a time.
    pub closed spec fn wf(&self) -> bool {
        distinct_meshes(self.incoming@)
    }

    /// No fade.
    pub fn new() -> (f: Self)
        ensures
            f.wf(),
            f.incoming_seq() == Seq::<(MeshKey, S)>::empty(),
            f.outgoing_seq() == Seq::<Outgoing<T, S>>::empty(),
    {
        Fades { incoming: Vec::new(), outgoing: Vec::new() }
    }

    /// Whether a fade runs (then the frame has to be drawn again as time goes on).
    pub fn is_active(&self) -> (b: bool)
        ensures
            b == (self.incoming_seq().len() > 0 || self.outgoing_seq().len() > 0),
    {
        self.incoming.len() > 0 || self.outgoing.len() > 0
    }

    /// Whether one more fade fits in the table of the shader.
    pub fn has_room(&self) -> (b: bool)
        ensures
            b == (self.incoming_seq().len() + self.outgoing_seq().len() < MAX_FADE_ENTRIES),
    {
        if self.incoming.len() >= MAX_FADE_ENTRIES {
            false
        } else {
            self.outgoing.len() < MAX_FADE_ENTRIES - self.incoming.len()
        }
    }

    /// Ends the fades of `key` at once (its mesh is replaced right away or rewritten).
    pub fn cancel(&mut self, key: MeshKey)
        requires
            old(self).wf(),
        ensures
            final(self).wf(),
            final(self).outgoing_seq() == old(self).outgoing_seq().filter(
                |o: Outgoing<T, S>| o.key != key,
            ),
            final(self).incoming_seq() == old(self).incoming_seq().filter(
                |e: (MeshKey, S)| e.0 != key,
            ),
    {
        let other_out = |o: &Outgoing<T, S>| -> (b: bool)
            ensures
                b == (o.key != key),
            { !same_mesh(o.key, key) };
        retain_items(&mut self.outgoing, &other_out, Ghost(|o: Outgoing<T, S>| o.key != key));
        let other_in = |e: &(MeshKey, S)| -> (b: bool)
            ensures
                b == (e.0 != key),
            { !same_mesh(e.0, key) };
        let ghost before = self.incoming@;
        retain_items(&mut self.incoming, &other_in, Ghost(|e: (MeshKey, S)| e.0 != key));
        proof {
            lemma_filter_distinct(before, |e: (MeshKey, S)| e.0 != key);
        }
    }

    /// Ends every fade at once.
    pub fn clear(&mut self)
        ensures
            final(self).wf(),
            final(self).incoming_seq() == Seq::<(MeshKey, S)>::empty(),
            final(self).outgoing_seq() == Seq::<Outgoing<T, S>>::empty(),
    {
        self.outgoing.clear();
        self.incoming.clear();
    }

    /// The mesh of `key` was replaced at `now`: the new one fades in, and `previous` (if any) fades
    /// out. A fade of `key` still running is dropped first (the mesh shown now is the one that
    /// fades out).
    pub fn replace(&mut self, key: MeshKey, previous: Option<T>, now: S)
        requires
            old(self).wf(),
        ensures
            final(self).wf(),
            final(self).incoming_seq() == old(self).incoming_seq().filter(
                |e: (MeshKey, S)| e.0 != key,
            ).push((key, now)),
            final(self).outgoing_seq() == match previous {
                Some(mesh) => old(self).outgoing_seq().filter(|o: Outgoing<T, S>| o.key != key).push(
                    Outgoing { key, mesh, start_ms: now },
                ),
                None => old(self).outgoing_seq().filter(|o: Outgoing<T, S>| o.key != key),
            },
    {
        self.cancel(key);
        let ghost before = self.incoming@;
        self.incoming.push((key, now));
        proof {
            let p = |e: (MeshKey, S)| e.0 != key;
            assert(before == old(self).incoming@.filter(p));
            assert forall|i: int| 0 <= i < before.len() implies #[trigger] before[i].0 != key by {
                old(self).incoming@.lemma_filter_pred(p, i);
            }
            lemma_push_distinct(before, key, now);
        }
        match previous {
            Some(mesh) => self.outgoing.push(Outgoing { key, mesh, start_ms: now }),
            None => {},
        }
    }

    /// The mesh `mesh` of `key` was removed at `now`: it fades out, and a fade-in of `key` ends.
    pub fn remove(&mut self, key: MeshKey, mesh: T, now: S)
        requires
            old(self).wf(),
        ensures
            final(self).wf(),
            final(self).incoming_seq() == old(self).incoming_seq().filter(
                |e: (MeshKey, S)| e.0 != key,
            ),
            final(self).outgoing_seq() == old(self).outgoing_seq().filter(
                |o: Outgoing<T, S>| o.key != key,
            ).push(Outgoing { key, mesh, start_ms: now }),
    {
        self.cancel(key);
        self.outgoing.push(Outgoing { key, mesh, start_ms: now });
    }

    /// Clears the fades that have ended: those whose start `running` does not keep (the old
    /// meshes are dropped here). `running` must answer the same for the same start.
    pub fn finish<F: Fn(&S) -> bool>(&mut self, running: F)
        requires
            old(self).wf(),
            forall|s: S| #[trigger] running.requires((&s,)),
            forall|s: S, a: bool, b: bool|
                #![trigger running.ensures((&s,), a), running.ensures((&s,), b)]
                running.ensures((&s,), a) && running.ensures((&s,), b) ==> a == b,
        ensures
            final(self).wf(),
            final(self).outgoing_seq() == old(self).outgoing_seq().filter(
                |o: Outgoing<T, S>| running.ensures((&o.start_ms,), true),
            ),
            final(self).incoming_seq() == old(self).incoming_seq().filter(
                |e: (MeshKey, S)| running.ensures((&e.1,), true),
            ),
    {
        let run = &running;
        let out_running = |o: &Outgoing<T, S>| -> (b: bool)
            requires
                forall|s: S| #[trigger] run.requires((&s,)),
            ensures
                b == run.ensures((&o.start_ms,), true),
            {
                let r = run(&o.start_ms);
                proof {
                    if !r && run.ensures((&o.start_ms,), true) {
                        assert(run.ensures((&o.start_ms,), false));
                    }
                }
                r
            };
        retain_items(
            &mut self.outgoing,
            &out_running,
            Ghost(|o: Outgoing<T, S>| running.ensures((&o.start_ms,), true)),
        );
        let in_running = |e: &(MeshKey, S)| -> (b: bool)
            requires
                forall|s: S| #[trigger] run.requires((&s,)),
            ensures
                b == run.ensures((&e.1,), true),
            {
                let r = run(&e.1);
                proof {
                    if !r && run.ensures((&e.1,), true) {
                        assert(run.ensures((&e.1,), false));
                    }
                }
                r
            };
        let ghost before = self.incoming@;
        retain_items(
            &mut self.incoming,
            &in_running,
            Ghost(|e: (MeshKey, S)| running.ensures((&e.1,), true)),
        );
        proof {
            lemma_filter_distinct(before, |e: (MeshKey, S)| running.ensures((&e.1,), true));
        }
    }

    /// The start of the fade-in of `key`, if its mesh is fading in.
    pub fn incoming_start(&self, key: MeshKey) -> (r: Option<S>)
        ensures
            r == start_of(self.incoming_seq(), key),
    {
        let mut i = self.incoming.len();
        proof {
            assert(self.incoming@.subrange(0, i as int) =~= self.incoming@);
        }
        while i > 0
            invariant
                i <= self.incoming@.len(),
                start_of(self.incoming@, key) == start_of(self.incoming@.subrange(0, i as int), key),
            decreases i,
        {
            let e = self.incoming[i - 1];
            proof {
                assert(self.incoming@.subrange(0, i - 1) =~= self.incoming@.subrange(
                    0,
                    i as int,
                ).drop_last());
            }
            if same_mesh(e.0, key) {
                return Some(e.1);
            }
            i = i - 1;
        }
        None
    }

    /// Whether the mesh of `key` is fading in.
    pub fn is_incoming(&self, key: MeshKey) -> (b: bool)
        ensures
            b == start_of(self.incoming_seq(), key) is Some,
    {
        self.incoming_start(key).is_some()
    }

    /// Whether any mesh is fading in (if not, drawing needs no per-mesh lookup).
    pub fn has_incoming(&self) -> (b: bool)
        ensures
            b == (self.incoming_seq().len() > 0),
    {
        self.incoming.len() > 0
    }

    /// The old meshes fading out.
    pub fn outgoing(&self) -> (r: &[Outgoing<T, S>])
        ensures
            r@ == self.outgoing_seq(),
    {
        self.outgoing.as_slice()
    }
}

/// Filtering keeps the keys distinct.
proof fn lemma_filter_distinct<S>(s: Seq<(MeshKey, S)>, pred: spec_fn((MeshKey, S)) -> bool)
    requires
        distinct_meshes(s),
    ensures
        distinct_meshes(s.filter(pred)),
    decreases s.len(),
{
    reveal(Seq::filter);
    if s.len() > 0 {
        lemma_filter_distinct(s.drop_last(), pred);
        let f = s.drop_last().filter(pred);
        if pred(s.last()) {
            assert forall|i: int| 0 <= i < f.len() implies #[trigger] f[i].0 != s.last().0 by {
                assert(f.contains(f[i]));
                s.drop_last().lemma_filter_contains_rev(pred, f[i]);
                let j = choose|j: int| 0 <= j < s.drop_last().len() && s.drop_last()[j] == f[i];
                assert(s[j] == f[i]);
                assert(s[s.len() - 1] == s.last());
            }
            let t = f.push(s.last());
            assert forall|i: int, j: int|
                0 <= i < t.len() && 0 <= j < t.len() && i != j implies #[trigger] t[i].0
                != #[trigger] t[j].0 by {
                if i < f.len() && j < f.len() {
                    assert(t[i] == f[i] && t[j] == f[j]);
                } else if i < f.len() {
                    assert(t[i] == f[i]);
                } else if j < f.len() {
                    assert(t[j] == f[j]);
                }
            }
        }
    }
}

/// Appending a key that is not there keeps the keys distinct.
proof fn lemma_push_distinct<S>(s: Seq<(MeshKey, S)>, key: MeshKey, now: S)
    requires
        distinct_meshes(s),
        forall|i: int| 0 <= i < s.len() ==> #[trigger] s[i].0 != key,
    ensures
        distinct_meshes(s.push((key, now))),
{
    let t = s.push((key, now));
    assert forall|i: int, j: int|
        0 <= i < t.len() && 0 <= j < t.len() && i != j implies #[trigger] t[i].0
        != #[trigger] t[j].0 by {
        if i < s.len() && j < s.len() {
            assert(t[i] == s[i] && t[j] == s[j]);
        } else if i < s.len() {
            assert(t[i] == s[i]);
        } else if j < s.len() {
            assert(t[j] == s[j]);
        }
    }
}

} // verus!
