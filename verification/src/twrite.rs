//! Byte sinks, and values that know how to write themselves into one.

use crate::arena::{FBuilder, FVec, SIZE};
use crate::layout::bytes_of;
use vstd::prelude::*;

verus! {

/// What is left of `s` in a sink that holds at most `limit` bytes.
pub open spec fn clip(s: Seq<u8>, limit: Option<nat>) -> Seq<u8> {
    match limit {
        None => s,
        Some(n) => if s.len() <= n { s } else { s.take(n as int) },
    }
}

/// A byte sink. One with a limit silently drops what does not fit.
pub trait TinyWriter: Sized {
    /// What the sink holds.
    spec fn written(&self) -> Seq<u8>;

    /// How many bytes it can hold, if that is limited.
    spec fn limit(&self) -> Option<nat>;

    /// Whether `n` more bytes may be offered to it.
    spec fn takes(&self, n: nat) -> bool;

    /// Writes `b`.
    fn put_bytes(&mut self, b: &[u8])
        requires
            old(self).takes(b@.len()),
        ensures
            final(self).written() == clip(old(self).written() + b@, old(self).limit()),
            final(self).limit() == old(self).limit(),
            forall|n: nat| old(self).takes(b@.len() + n) ==> #[trigger] final(self).takes(n),
    ;

    /// Writes one byte.
    fn put_byte(&mut self, b: u8)
        requires
            old(self).takes(1),
        ensures
            final(self).written() == clip(old(self).written() + seq![b], old(self).limit()),
            final(self).limit() == old(self).limit(),
            forall|n: nat| old(self).takes(1 + n) ==> #[trigger] final(self).takes(n),
    ;
}

/// `after` is what `before` becomes when `text` is written to it.
pub open spec fn puts<W: TinyWriter>(before: W, after: W, text: Seq<u8>) -> bool {
    &&& after.written() == clip(before.written() + text, before.limit())
    &&& after.limit() == before.limit()
    &&& forall|n: nat| before.takes(text.len() + n) ==> #[trigger] after.takes(n)
}

/// A value with a text.
pub trait Put {
    /// The text.
    spec fn text(&self) -> Seq<u8>;

    /// Writes the text.
    fn put<W: TinyWriter>(&self, w: &mut W)
        requires
            old(w).takes(self.text().len()),
        ensures
            puts(*old(w), *final(w), self.text()),
    ;
}

/// Writing one text and then another is writing both as one.
pub proof fn law_puts_chain<W: TinyWriter>(a: W, b: W, c: W, s: Seq<u8>, t: Seq<u8>)
    requires
        puts(a, b, s),
        puts(b, c, t),
    ensures
        puts(a, c, s + t),
{
    let x = a.written();
    assert(x + (s + t) =~= (x + s) + t);
    match a.limit() {
        None => {},
        Some(n) => {
            if (x + s).len() <= n {
            } else {
                assert(c.written() =~= (x + (s + t)).take(n as int));
            }
        },
    }
    assert forall|n: nat| a.takes((s + t).len() + n) implies #[trigger] c.takes(n) by {
        assert(a.takes(s.len() + (t.len() + n)));
        assert(b.takes(t.len() + n));
    }
}

impl TinyWriter for Vec<u8> {
    open spec fn written(&self) -> Seq<u8> {
        self@
    }

    open spec fn limit(&self) -> Option<nat> {
        None
    }

    open spec fn takes(&self, n: nat) -> bool {
        true
    }

    fn put_bytes(&mut self, b: &[u8]) {
        self.extend_from_slice(b);
    }

    fn put_byte(&mut self, b: u8) {
        self.push(b);
        assert(self@ =~= old(self)@ + seq![b]);
    }
}

impl<'id> TinyWriter for FVec<'id, u8> {
    open spec fn written(&self) -> Seq<u8> {
        self@
    }

    open spec fn limit(&self) -> Option<nat> {
        Some(self.cap())
    }

    open spec fn takes(&self, n: nat) -> bool {
        self.wf()
    }

    fn put_bytes(&mut self, b: &[u8]) {
        let room: usize = self.capacity() - self.len();
        if b.len() <= room {
            self.extend_from_slice(b);
        } else {
            self.extend_from_slice(vstd::slice::slice_subrange(b, 0, room));
            assert(self@ =~= (old(self)@ + b@).take(old(self).cap() as int));
        }
    }

    fn put_byte(&mut self, b: u8) {
        let _ = self.push(b);
        assert(old(self)@.len() < old(self).cap() ==> self@ =~= old(self)@ + seq![b]);
        assert(old(self)@.len() == old(self).cap() ==> self@ =~= (old(self)@ + seq![b]).take(
            old(self).cap() as int,
        ));
    }
}

impl<'a, 'id> TinyWriter for FBuilder<'a, 'id, u8> {
    open spec fn written(&self) -> Seq<u8> {
        self@
    }

    open spec fn limit(&self) -> Option<nat> {
        None
    }

    open spec fn takes(&self, n: nat) -> bool {
        self.at() + bytes_of::<u8>(self@.len() + n) <= SIZE && self@.len() + n <= u32::MAX
    }

    fn put_bytes(&mut self, b: &[u8]) {
        proof {
            crate::layout::lemma_bytes_add::<u8>(self@.len(), b@.len());
        }
        self.extend_from_slice(b);
        assert forall|n: nat| old(self).takes(b@.len() + n) implies #[trigger] self.takes(n) by {
            assert(self@.len() + n == old(self)@.len() + (b@.len() + n));
        }
    }

    fn put_byte(&mut self, b: u8) {
        proof {
            crate::layout::lemma_bytes_add::<u8>(self@.len(), 1);
        }
        self.push(b);
        assert(self@ =~= old(self)@ + seq![b]);
        assert forall|n: nat| old(self).takes(1 + n) implies #[trigger] self.takes(n) by {
            assert(self@.len() + n == old(self)@.len() + (1 + n));
        }
    }
}

/// The decimal digits of `n`, without leading zeros.
pub open spec fn decimal(n: nat) -> Seq<u8>
    decreases n,
{
    let last = (0x30 + n % 10) as u8;
    if n < 10 {
        seq![last]
    } else {
        decimal(n / 10).push(last)
    }
}

/// How many decimal digits `n` has.
pub fn digit_count(n: u32) -> (r: u8)
    ensures
        r == decimal(n as nat).len(),
        1 <= r <= 10,
{
    reveal_with_fuel(decimal, 11);
    if n < 10 {
        1
    } else if n < 100 {
        2
    } else if n < 1000 {
        3
    } else if n < 10000 {
        4
    } else if n < 100000 {
        5
    } else if n < 1000000 {
        6
    } else if n < 10000000 {
        7
    } else if n < 100000000 {
        8
    } else if n < 1000000000 {
        9
    } else {
        10
    }
}

/// The digits of `n`.
pub fn decimal_digits(n: u64) -> (r: Vec<u8>)
    ensures
        r@ == decimal(n as nat),
    decreases n,
{
    let last: u8 = 48 + (n % 10) as u8;
    if n < 10 {
        let mut r: Vec<u8> = Vec::new();
        r.push(last);
        assert(r@ =~= decimal(n as nat));
        r
    } else {
        let mut r = decimal_digits(n / 10);
        r.push(last);
        r
    }
}

/// Writes `n` in decimal.
pub fn write_u32<W: TinyWriter>(w: &mut W, n: u32)
    requires
        old(w).takes(decimal(n as nat).len()),
    ensures
        puts(*old(w), *final(w), decimal(n as nat)),
{
    let digits: Vec<u8> = decimal_digits(n as u64);
    w.put_bytes(digits.as_slice());
}

/// Every digit of a number stands in its place, and no zero leads.
pub proof fn law_digits_stand_in_their_places(n: nat, k: nat)
    requires
        k < decimal(n).len(),
    ensures
        decimal(n)[decimal(n).len() - 1 - k] == 0x30 + n as int / vstd::arithmetic::power::pow(
            10,
            k,
        ) % 10,
        n > 0 ==> decimal(n)[0] != 0x30,
        n == 0 ==> decimal(n).len() == 1,
    decreases n,
{
    vstd::arithmetic::power::lemma_pow0(10);
    let p = vstd::arithmetic::power::pow(10, k);
    if n >= 10 {
        law_digits_stand_in_their_places(
            n / 10,
            if k > 0 {
                (k - 1) as nat
            } else {
                0
            },
        );
        if k > 0 {
            let q = vstd::arithmetic::power::pow(10, (k - 1) as nat);
            vstd::arithmetic::power::lemma_pow_positive(10, (k - 1) as nat);
            assert(p == 10 * q) by {
                reveal(vstd::arithmetic::power::pow);
            }
            vstd::arithmetic::div_mod::lemma_div_denominator(n as int, 10, q);
        }
    }
}

} // verus!
