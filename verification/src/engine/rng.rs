//! A small generator of pseudo-random numbers (xorshift, 128 bits of state),
//! used to hand out ids.

use vstd::prelude::*;

verus! {

pub const KX: u32 = 123456789;

pub const KY: u32 = 362436069;

pub const KZ: u32 = 521288629;

pub const KW: u32 = 88675123;

/// The state of the generator.
#[derive(Debug, Clone, Copy, PartialEq, Eq, Structural)]
pub struct Rand {
    pub x: u32,
    pub y: u32,
    pub z: u32,
    pub w: u32,
}

impl Rand {
    /// The state after one step: the words move up by one, and the last is
    /// mixed with the first.
    pub open spec fn step(self) -> Rand {
        let t = self.x ^ (self.x << 11u32);
        Rand { x: self.y, y: self.z, z: self.w, w: self.w ^ (self.w >> 19u32) ^ t ^ (t >> 8u32) }
    }

    /// The number of values from `a` to `b`, both included.
    pub open spec fn span(a: i32, b: i32) -> int {
        b - a + 1
    }

    /// The generator seeded with `seed`.
    pub fn new(seed: u32) -> (rng: Rand)
        ensures
            rng == (Rand { x: KX ^ seed, y: KY ^ seed, z: KZ, w: KW }),
    {
        Rand { x: KX ^ seed, y: KY ^ seed, z: KZ, w: KW }
    }

    /// Steps the generator and returns its last word.
    pub fn rand(&mut self) -> (value: u32)
        ensures
            *final(self) == old(self).step(),
            value == old(self).step().w,
    {
        let t = self.x ^ (self.x << 11u32);
        self.x = self.y;
        self.y = self.z;
        self.z = self.w;
        self.w = self.w ^ (self.w >> 19u32) ^ t ^ (t >> 8u32);
        self.w
    }

    /// Steps the generator and returns a number from `a` to `b`, both
    /// included: `a` plus the remainder of the last word by the number of
    /// values in that range.
    pub fn rand_range(&mut self, a: i32, b: i32) -> (value: i32)
        requires
            a <= b,
            Self::span(a, b) <= i32::MAX,
        ensures
            *final(self) == old(self).step(),
            value == a + old(self).step().w % (Self::span(a, b) as u32),
            a <= value <= b,
    {
        let m = (b - a + 1) as u32;
        let r = self.rand() % m;
        a + r as i32
    }
}

/// `s` with the elements at `i` and `j` in each other's place.
pub open spec fn swapped<T>(s: Seq<T>, i: int, j: int) -> Seq<T> {
    s.update(i, s[j]).update(j, s[i])
}

/// `s` as `rng` shuffles it from the position `i` down: the element at `i`
/// changes places with one at or before it, picked by the next number of the
/// generator, and so on down to the second element.
pub open spec fn shuffled<T>(rng: Rand, s: Seq<T>, i: nat) -> Seq<T>
    decreases i,
{
    if i == 0 {
        s
    } else {
        let next = rng.step();
        shuffled(next, swapped(s, i as int, next.w as int % (i as int + 1)), (i - 1) as nat)
    }
}

/// The generator after `n` steps.
pub open spec fn stepped(rng: Rand, n: nat) -> Rand
    decreases n,
{
    if n == 0 {
        rng
    } else {
        stepped(rng.step(), (n - 1) as nat)
    }
}

/// Two elements that change places leave the same elements, each as often as before.
pub proof fn lemma_swapped_permutes<T>(s: Seq<T>, i: int, j: int)
    requires
        0 <= i < s.len(),
        0 <= j < s.len(),
    ensures
        swapped(s, i, j).len() == s.len(),
        swapped(s, i, j).to_multiset() == s.to_multiset(),
{
    broadcast use vstd::seq_lib::group_to_multiset_ensures;
    let once = s.update(i, s[j]);
    vstd::seq_lib::to_multiset_update(s, i, s[j]);
    vstd::seq_lib::to_multiset_update(once, j, s[i]);
    assert(s.to_multiset().count(s[i]) > 0) by {
        assert(s.to_multiset().contains(s[i]));
    }
    assert(s.to_multiset().count(s[j]) > 0) by {
        assert(s.to_multiset().contains(s[j]));
    }
    assert(swapped(s, i, j).to_multiset() =~= s.to_multiset());
}

/// A shuffle leaves the same elements, each as often as before.
pub proof fn lemma_shuffled_permutes<T>(rng: Rand, s: Seq<T>, i: nat)
    requires
        i < s.len() || i == 0,
    ensures
        shuffled(rng, s, i).len() == s.len(),
        shuffled(rng, s, i).to_multiset() == s.to_multiset(),
    decreases i,
{
    if i > 0 {
        let next = rng.step();
        let j = next.w as int % (i as int + 1);
        lemma_swapped_permutes(s, i as int, j);
        lemma_shuffled_permutes(next, swapped(s, i as int, j), (i - 1) as nat);
    }
}

/// `<[T]>::swap` of std, which puts the elements at `i` and `j` of a slice in
/// each other's place and panics where one of the two is out of bounds.
#[verifier::external_body]
fn swap_items<T>(a: &mut [T], i: usize, j: usize)
    requires
        i < old(a)@.len(),
        j < old(a)@.len(),
    ensures
        final(a)@ == swapped(old(a)@, i as int, j as int),
{
    a.swap(i, j);
}

impl Rand {
    /// Shuffles `a`: from the last element down to the second, each changes
    /// places with an element at or before it, picked by the next number of
    /// the generator.
    pub fn shuffle<T>(&mut self, a: &mut [T])
        ensures
            final(a)@.len() == old(a)@.len(),
            final(a)@.to_multiset() == old(a)@.to_multiset(),
            old(a)@.len() > 0 ==> final(a)@ == shuffled(
                *old(self),
                old(a)@,
                (old(a)@.len() - 1) as nat,
            ) && *final(self) == stepped(*old(self), (old(a)@.len() - 1) as nat),
            old(a)@.len() == 0 ==> final(a)@ == old(a)@ && *final(self) == *old(self),
    {
        if a.len() == 0 {
            return ;
        }
        let ghost first = a@;
        let ghost seed = *self;
        let n = a.len();
        let mut i: usize = n - 1;
        proof {
            lemma_shuffled_permutes(seed, first, (n - 1) as nat);
        }
        while i > 0
            invariant
                n == a@.len(),
                n == first.len(),
                0 <= i < n,
                shuffled(*self, a@, i as nat) == shuffled(seed, first, (n - 1) as nat),
                stepped(*self, i as nat) == stepped(seed, (n - 1) as nat),
            decreases i,
        {
            let j = (self.rand() as usize) % (i + 1);
            swap_items(a, i, j);
            i -= 1;
        }
    }
}

/// A fresh id from `rng`: a number from 1 to `i32::MAX`.
pub fn uid(rng: &mut Rand) -> (id: u32)
    ensures
        *final(rng) == old(rng).step(),
        id == 1 + old(rng).step().w % 0x7fff_ffffu32,
        1 <= id <= i32::MAX,
{
    rng.rand_range(1, i32::MAX) as u32
}

} // verus!
