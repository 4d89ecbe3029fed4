use vstd::prelude::*;

verus! {

/// The keys that the frame policy reads, and any other key by its code.
#[derive(Clone, Copy, Debug, PartialEq, Eq, Structural)]
pub enum Key {
    W,
    A,
    S,
    D,
    E,
    Q,
    Up,
    Down,
    Left,
    Right,
    Escape,
    Other(u32),
}

/// The pressed keys after `k` goes down: added at the end unless already
/// there.
pub open spec fn after_press(keys: Seq<Key>, k: Key) -> Seq<Key> {
    if keys.contains(k) {
        keys
    } else {
        keys.push(k)
    }
}

/// The pressed keys after `k` goes up: its entry is taken out, the others
/// keep their order.
pub open spec fn after_release(keys: Seq<Key>, k: Key) -> Seq<Key> {
    keys.remove_value(k)
}

/// The pointer motion gathered so far, after one more motion `(dx, dy)`.
pub open spec fn accumulate(acc: (int, int), dx: int, dy: int) -> (int, int) {
    (acc.0 + dx, acc.1 + dy)
}

/// The pressed keys after the keys `ks` go down one after the other.
pub open spec fn after_presses(keys: Seq<Key>, ks: Seq<Key>) -> Seq<Key>
    decreases ks.len(),
{
    if ks.len() == 0 {
        keys
    } else {
        after_press(after_presses(keys, ks.drop_last()), ks.last())
    }
}

/// The pressed keys after the keys `ks` go up one after the other.
pub open spec fn after_releases(keys: Seq<Key>, ks: Seq<Key>) -> Seq<Key>
    decreases ks.len(),
{
    if ks.len() == 0 {
        keys
    } else {
        after_release(after_releases(keys, ks.drop_last()), ks.last())
    }
}

proof fn lemma_presses_of_distinct(ks: Seq<Key>)
    requires
        ks.no_duplicates(),
    ensures
        after_presses(Seq::empty(), ks) == ks,
    decreases ks.len(),
{
    if ks.len() > 0 {
        let init = ks.drop_last();
        assert(init.no_duplicates());
        lemma_presses_of_distinct(init);
        assert(!init.contains(ks.last())) by {
            if init.contains(ks.last()) {
                let j = choose|j: int| 0 <= j < init.len() && init[j] == ks.last();
                assert(ks[j] == ks[ks.len() - 1]);
            }
        }
        assert(init.push(ks.last()) =~= ks);
    }
}

proof fn lemma_releases_of_distinct(keys: Seq<Key>, rs: Seq<Key>)
    requires
        keys.no_duplicates(),
        rs.no_duplicates(),
        forall|k: Key| rs.contains(k) ==> keys.contains(k),
    ensures
        after_releases(keys, rs).no_duplicates(),
        after_releases(keys, rs).len() == keys.len() - rs.len(),
        forall|k: Key| after_releases(keys, rs).contains(k) <==> (keys.contains(k) && !rs.contains(k)),
    decreases rs.len(),
{
    if rs.len() > 0 {
        let init = rs.drop_last();
        let k = rs.last();
        assert(init.no_duplicates());
        assert forall|x: Key| init.contains(x) implies keys.contains(x) by {
            let j = choose|j: int| 0 <= j < init.len() && init[j] == x;
            assert(rs[j] == x);
        }
        lemma_releases_of_distinct(keys, init);
        let before = after_releases(keys, init);
        assert(!init.contains(k)) by {
            if init.contains(k) {
                let j = choose|j: int| 0 <= j < init.len() && init[j] == k;
                assert(rs[j] == rs[rs.len() - 1]);
            }
        }
        assert(rs.contains(k)) by {
            assert(rs[rs.len() - 1] == k);
        }
        assert(before.contains(k));
        before.index_of_first_ensures(k);
        let i = before.index_of_first(k).unwrap();
        let after = before.remove(i);
        assert(after_releases(keys, rs) == after);
        assert forall|a: int, b: int| 0 <= a < b < after.len() implies after[a] != after[b] by {
            let a2 = if a < i { a } else { a + 1 };
            let b2 = if b < i { b } else { b + 1 };
            assert(after[a] == before[a2] && after[b] == before[b2]);
        }
        assert forall|x: Key| after.contains(x) <==> (keys.contains(x) && !rs.contains(x)) by {
            if after.contains(x) {
                let j = choose|j: int| 0 <= j < after.len() && after[j] == x;
                let j2 = if j < i { j } else { j + 1 };
                assert(before[j2] == x);
                assert(x != k);
                if rs.contains(x) {
                    let m = choose|m: int| 0 <= m < rs.len() && rs[m] == x;
                    assert(init[m] == x);
                }
            }
            if keys.contains(x) && !rs.contains(x) {
                assert(!init.contains(x)) by {
                    if init.contains(x) {
                        let m = choose|m: int| 0 <= m < init.len() && init[m] == x;
                        assert(rs[m] == x);
                    }
                }
                assert(x != k);
                let j = choose|j: int| 0 <= j < before.len() && before[j] == x;
                if j < i {
                    assert(after[j] == x);
                } else {
                    assert(j != i);
                    assert(after[j - 1] == x);
                }
            }
        }
    }
}

/// Pressing `n` distinct keys and then releasing `m` distinct keys among
/// them leaves exactly the `n - m` keys that were not released held, in the
/// order they went down.
pub proof fn lemma_press_release_count(presses: Seq<Key>, releases: Seq<Key>)
    requires
        presses.no_duplicates(),
        releases.no_duplicates(),
        forall|k: Key| releases.contains(k) ==> presses.contains(k),
    ensures
        after_releases(after_presses(Seq::empty(), presses), releases).len() == presses.len() - releases.len(),
        forall|k: Key| #[trigger] after_releases(after_presses(Seq::empty(), presses), releases).contains(k)
            <==> (presses.contains(k) && !releases.contains(k)),
        after_releases(after_presses(Seq::empty(), presses), releases).no_duplicates(),
{
    lemma_presses_of_distinct(presses);
    lemma_releases_of_distinct(presses, releases);
}

/// Two pointer motions gathered from nothing add up coordinate by
/// coordinate.
pub proof fn lemma_pointer_sum(dx1: int, dy1: int, dx2: int, dy2: int)
    ensures
        accumulate(accumulate((0, 0), dx1, dy1), dx2, dy2) == (dx1 + dx2, dy1 + dy2),
{
}

/// Input state shared by the side that receives window events and the frame
/// loop: the keys held down, in the order they went down, and the pointer
/// motion not yet taken by a frame.
pub struct InputState {
    pressed: Vec<Key>,
    pointer_dx: i64,
    pointer_dy: i64,
}

impl InputState {
    /// The keys held down, oldest first.
    pub closed spec fn keys(&self) -> Seq<Key> {
        self.pressed@
    }

    /// The pointer motion gathered since a frame last took it.
    pub closed spec fn pointer(&self) -> (int, int) {
        (self.pointer_dx as int, self.pointer_dy as int)
    }

    /// No key is listed twice.
    pub open spec fn wf(&self) -> bool {
        self.keys().no_duplicates()
    }

    /// No key held and no pointer motion.
    pub fn new() -> (s: InputState)
        ensures
            s.wf(),
            s.keys() == Seq::<Key>::empty(),
            s.pointer() == (0int, 0int),
    {
        InputState { pressed: Vec::new(), pointer_dx: 0, pointer_dy: 0 }
    }

    /// Whether `k` is held down.
    pub fn is_pressed(&self, k: Key) -> (r: bool)
        ensures
            r == self.keys().contains(k),
    {
        let mut i: usize = 0;
        while i < self.pressed.len()
            invariant
                i <= self.pressed@.len(),
                forall|j: int| 0 <= j < i ==> self.pressed@[j] != k,
            decreases self.pressed.len() - i,
        {
            if self.pressed[i] == k {
                return true;
            }
            i = i + 1;
        }
        false
    }

    /// The keys held down, oldest first.
    pub fn pressed_keys(&self) -> (ks: &Vec<Key>)
        ensures
            ks@ == self.keys(),
    {
        &self.pressed
    }

    /// The pointer motion gathered since a frame last took it.
    pub fn pointer_delta(&self) -> (d: (i64, i64))
        ensures
            (d.0 as int, d.1 as int) == self.pointer(),
    {
        (self.pointer_dx, self.pointer_dy)
    }

    /// Records that `k` went down.
    pub fn press(&mut self, k: Key)
        requires
            old(self).wf(),
        ensures
            final(self).wf(),
            final(self).keys() == after_press(old(self).keys(), k),
            final(self).pointer() == old(self).pointer(),
    {
        if !self.is_pressed(k) {
            self.pressed.push(k);
        }
    }

    /// Records that `k` went up.
    pub fn release(&mut self, k: Key)
        requires
            old(self).wf(),
        ensures
            final(self).wf(),
            final(self).keys() == after_release(old(self).keys(), k),
            final(self).pointer() == old(self).pointer(),
    {
        let ghost ks = self.pressed@;
        let mut i: usize = 0;
        while i < self.pressed.len()
            invariant
                self.pressed@ == ks,
                ks == old(self).keys(),
                ks.no_duplicates(),
                self.pointer() == old(self).pointer(),
                i <= ks.len(),
                forall|j: int| 0 <= j < i ==> ks[j] != k,
            decreases self.pressed.len() - i,
        {
            if self.pressed[i] == k {
                self.pressed.remove(i);
                proof {
                    ks.index_of_first_ensures(k);
                    assert(ks.index_of_first(k) == Some(i as int));
                    assert(self.pressed@ =~= ks.remove(i as int));
                    assert forall|a: int, b: int| 0 <= a < b < self.pressed@.len() implies
                        self.pressed@[a] != self.pressed@[b] by {
                        let a2 = if a < i { a } else { a + 1 };
                        let b2 = if b < i { b } else { b + 1 };
                        assert(self.pressed@[a] == ks[a2] && self.pressed@[b] == ks[b2]);
                    }
                }
                return;
            }
            i = i + 1;
        }
        proof {
            ks.index_of_first_ensures(k);
            assert(!ks.contains(k));
        }
    }

    /// Adds one pointer motion to what has been gathered.
    pub fn add_pointer_motion(&mut self, dx: i64, dy: i64)
        requires
            i64::MIN <= old(self).pointer().0 + dx <= i64::MAX,
            i64::MIN <= old(self).pointer().1 + dy <= i64::MAX,
        ensures
            final(self).keys() == old(self).keys(),
            final(self).pointer() == accumulate(old(self).pointer(), dx as int, dy as int),
    {
        self.pointer_dx = self.pointer_dx + dx;
        self.pointer_dy = self.pointer_dy + dy;
    }

    /// Hands out the pointer motion gathered so far and starts again from
    /// none.
    pub fn take_pointer_delta(&mut self) -> (d: (i64, i64))
        ensures
            (d.0 as int, d.1 as int) == old(self).pointer(),
            final(self).pointer() == (0int, 0int),
            final(self).keys() == old(self).keys(),
    {
        let d = (self.pointer_dx, self.pointer_dy);
        self.pointer_dx = 0;
        self.pointer_dy = 0;
        d
    }
}

} // verus!
