//! The leaf-path codec: a growable sequence of base-4 symbols.
//!
//! `Base4` packs up to 64 symbols, two bits each, into one 128-bit word;
//! `Base4Int` chains such blocks so the sequence can grow without bound.
//! Symbols are always appended to and removed from the tail, and every block
//! except the newest is full.
use vstd::prelude::*;

verus! {

/// Number of two-bit symbols one `Base4` block can hold.
pub const BLOCK_CAPACITY: usize = 64;

/// 4 raised to the power `n`.
pub open spec fn pow4(n: nat) -> nat
    decreases n,
{
    if n == 0 {
        1
    } else {
        4 * pow4((n - 1) as nat)
    }
}

/// The sequence of `n` base-4 symbols packed in `e`, oldest symbol first.
/// The most recently pushed symbol sits in the low two bits of `e`.
pub open spec fn decode(e: nat, n: nat) -> Seq<u8>
    decreases n,
{
    if n == 0 {
        Seq::empty()
    } else {
        decode(e / 4, (n - 1) as nat).push((e % 4) as u8)
    }
}

/// The packed word that holds the symbols of `s`, newest in the low bits.
pub open spec fn encode(s: Seq<u8>) -> nat
    decreases s.len(),
{
    if s.len() == 0 {
        0
    } else {
        (encode(s.drop_last()) * 4 + s.last()) as nat
    }
}

pub proof fn lemma_pow4_pos(n: nat)
    ensures
        pow4(n) >= 1,
    decreases n,
{
    if n > 0 {
        lemma_pow4_pos((n - 1) as nat);
    }
}

pub proof fn lemma_pow4_mono(a: nat, b: nat)
    requires
        a <= b,
    ensures
        pow4(a) <= pow4(b),
    decreases b,
{
    if a < b && b > 0 {
        lemma_pow4_mono(a, (b - 1) as nat);
        lemma_pow4_pos((b - 1) as nat);
    }
}

/// The concrete values of `pow4` at the block-capacity edge.
proof fn lemma_pow4_block_values()
    ensures
        pow4(63) == 0x40000000000000000000000000000000,
        pow4(64) == 0x100000000000000000000000000000000,
{
    reveal_with_fuel(pow4, 65);
}

proof fn lemma_decode_len(e: nat, n: nat)
    ensures
        decode(e, n).len() == n,
    decreases n,
{
    if n > 0 {
        lemma_decode_len(e / 4, (n - 1) as nat);
    }
}

/// Pushing one symbol onto the packed word appends it to the decoded view.
proof fn lemma_decode_push(e: nat, n: nat, s: nat)
    requires
        s < 4,
    ensures
        decode(e * 4 + s, n + 1) == decode(e, n).push(s as u8),
{
    assert((e * 4 + s) / 4 == e && (e * 4 + s) % 4 == s) by (nonlinear_arith)
        requires
            s < 4,
    ;
}

/// The symbol at position `i` is found by shifting away the `n - 1 - i`
/// symbols pushed after it.
proof fn lemma_decode_index(e: nat, n: nat, i: int)
    requires
        0 <= i < n,
    ensures
        decode(e, n)[i] == ((e / pow4((n - 1 - i) as nat)) % 4) as u8,
    decreases n,
{
    lemma_decode_len(e / 4, (n - 1) as nat);
    if i == n - 1 {
        assert(pow4(0) == 1);
        assert((n - 1 - i) as nat == 0);
        assert(decode(e, n)[i] == (e % 4) as u8);
        assert(e / pow4(0) == e);
    } else {
        lemma_decode_index(e / 4, (n - 1) as nat, i);
        let k = (n - 2 - i) as nat;
        lemma_pow4_pos(k);
        assert(decode(e, n)[i] == decode(e / 4, (n - 1) as nat)[i]);
        assert(decode(e / 4, (n - 1) as nat)[i] == (((e / 4) / pow4(k)) % 4) as u8);
        vstd::arithmetic::div_mod::lemma_div_denominator(e as int, 4, pow4(k) as int);
        assert(4 * pow4(k) == pow4((k + 1) as nat));
        assert((e / 4) / pow4(k) == e / pow4((k + 1) as nat));
        assert((n - 1 - i) as nat == (k + 1) as nat);
    }
}

/// Growth bound: a word below `pow4(n)` stays below `pow4(n + 1)` after a push.
proof fn lemma_encode_step_bound(e: nat, n: nat, s: nat)
    requires
        e < pow4(n),
        s < 4,
    ensures
        e * 4 + s < pow4(n + 1),
{
    assert(e * 4 + s < pow4(n) * 4) by (nonlinear_arith)
        requires
            e < pow4(n),
            s < 4,
    ;
}

/// Unpacking what was packed gives the original sequence back: the law
/// behind the push/pop round trip at the representation level.
pub proof fn lemma_encode_decode_round_trip(s: Seq<u8>)
    requires
        forall|i: int| 0 <= i < s.len() ==> s[i] < 4,
    ensures
        decode(encode(s), s.len()) == s,
    decreases s.len(),
{
    if s.len() > 0 {
        lemma_encode_decode_round_trip(s.drop_last());
        lemma_decode_push(encode(s.drop_last()), (s.len() - 1) as nat, s.last() as nat);
        assert(s.drop_last().push(s.last()) =~= s);
    }
}

/// One block of up to 64 base-4 symbols, packed two bits each into a
/// 128-bit word. The most recently pushed symbol occupies the low bits.
#[derive(Debug, Clone)]
pub struct Base4 {
    size: usize,
    encoded: u128,
}

impl View for Base4 {
    type V = Seq<u8>;

    /// The symbols held, oldest first.
    closed spec fn view(&self) -> Seq<u8> {
        decode(self.encoded as nat, self.size as nat)
    }
}

impl Base4 {
    /// Well-formed: at most 64 symbols, and no bits beyond them.
    pub closed spec fn wf(&self) -> bool {
        self.size <= BLOCK_CAPACITY && (self.encoded as nat) < pow4(self.size as nat)
    }

    pub fn new() -> (r: Base4)
        ensures
            r.wf(),
            r@ == Seq::<u8>::empty(),
    {
        Base4 { size: 0, encoded: 0 }
    }

    /// Appends one symbol in `0..=3` at the tail.
    pub fn push(&mut self, integer: u8)
        requires
            old(self).wf(),
            old(self)@.len() < BLOCK_CAPACITY,
            integer < 4,
        ensures
            final(self).wf(),
            final(self)@ == old(self)@.push(integer),
    {
        proof {
            lemma_decode_len(self.encoded as nat, self.size as nat);
            lemma_encode_step_bound(self.encoded as nat, self.size as nat, integer as nat);
            lemma_pow4_mono((self.size + 1) as nat, BLOCK_CAPACITY as nat);
            lemma_pow4_block_values();
            lemma_decode_push(self.encoded as nat, self.size as nat, integer as nat);
        }
        self.size = self.size + 1;
        self.encoded = self.encoded * 4 + (integer as u128);
    }

    /// Appends each symbol of `ints` in order.
    pub fn push_all(&mut self, ints: &[u8])
        requires
            old(self).wf(),
            old(self)@.len() + ints@.len() <= BLOCK_CAPACITY,
            forall|i: int| 0 <= i < ints@.len() ==> ints@[i] < 4,
        ensures
            final(self).wf(),
            final(self)@ == old(self)@ + ints@,
    {
        let ghost start = self@;
        let n = ints.len();
        let mut i: usize = 0;
        while i < n
            invariant
                self.wf(),
                n == ints@.len(),
                0 <= i <= n,
                start.len() + n <= BLOCK_CAPACITY,
                self@ == start + ints@.take(i as int),
                forall|j: int| 0 <= j < n ==> ints@[j] < 4,
            decreases n - i,
        {
            proof {
                lemma_decode_len(self.encoded as nat, self.size as nat);
            }
            self.push(ints[i]);
            proof {
                assert(start + ints@.take(i as int) + seq![ints@[i as int]] =~= start + ints@.take(
                    i + 1,
                ));
            }
            i = i + 1;
        }
        proof {
            assert(ints@.take(n as int) =~= ints@);
        }
    }

    /// Removes and returns the most recently pushed symbol.
    pub fn pop(&mut self) -> (r: u8)
        requires
            old(self).wf(),
            old(self)@.len() > 0,
        ensures
            final(self).wf(),
            r == old(self)@.last(),
            r < 4,
            final(self)@ == old(self)@.drop_last(),
    {
        proof {
            lemma_decode_len(self.encoded as nat, self.size as nat);
            assert((self.encoded as nat) / 4 < pow4((self.size - 1) as nat)) by {
                lemma_pow4_pos((self.size - 1) as nat);
                vstd::arithmetic::div_mod::lemma_div_is_ordered_by_denominator(
                    self.encoded as int,
                    1,
                    4,
                );
                assert((self.encoded as nat) / 4 * 4 <= self.encoded as nat) by (nonlinear_arith);
                assert(4 * pow4((self.size - 1) as nat) == pow4(self.size as nat));
            };
        }
        let out: u8 = (self.encoded % 4) as u8;
        self.encoded = self.encoded / 4;
        self.size = self.size - 1;
        out
    }

    /// Removes all symbols, returning them oldest first (push order).
    pub fn pop_all(&mut self) -> (r: Vec<u8>)
        requires
            old(self).wf(),
        ensures
            final(self).wf(),
            r@ == old(self)@,
            final(self)@ == Seq::<u8>::empty(),
    {
        let ints = self.peek_all();
        self.size = 0;
        self.encoded = 0;
        ints
    }

    /// Reads the symbol at position `index` (0 is the oldest) without
    /// removing anything.
    pub fn peek_at(&self, index: usize) -> (r: u8)
        requires
            self.wf(),
            index < self@.len(),
        ensures
            r == self@[index as int],
            r < 4,
    {
        proof {
            lemma_decode_len(self.encoded as nat, self.size as nat);
            lemma_decode_index(self.encoded as nat, self.size as nat, index as int);
        }
        let shift_pos = self.size - index - 1;
        let divisor = pow4_u128(shift_pos);
        ((self.encoded / divisor) % 4) as u8
    }

    /// Reads all symbols, oldest first, without removing anything.
    pub fn peek_all(&self) -> (r: Vec<u8>)
        requires
            self.wf(),
        ensures
            r@ == self@,
    {
        proof {
            lemma_decode_len(self.encoded as nat, self.size as nat);
        }
        let mut ints: Vec<u8> = Vec::new();
        let n = self.size;
        let mut index: usize = 0;
        while index < n
            invariant
                self.wf(),
                n == self@.len(),
                0 <= index <= n,
                ints@ == self@.take(index as int),
            decreases n - index,
        {
            ints.push(self.peek_at(index));
            proof {
                assert(self@.take(index as int).push(self@[index as int]) =~= self@.take(
                    index + 1,
                ));
            }
            index = index + 1;
        }
        proof {
            assert(self@.take(n as int) =~= self@);
        }
        ints
    }
}

/// The symbols of a chain of blocks, oldest block first.
pub open spec fn blocks_view(s: Seq<Seq<u8>>) -> Seq<u8>
    decreases s.len(),
{
    if s.len() == 0 {
        Seq::empty()
    } else {
        blocks_view(s.drop_last()) + s.last()
    }
}

proof fn lemma_blocks_view_push(s: Seq<Seq<u8>>, b: Seq<u8>)
    ensures
        blocks_view(s.push(b)) == blocks_view(s) + b,
{
    assert(s.push(b).drop_last() =~= s);
    assert(s.push(b).last() == b);
}

/// With every block but the last full, the chain's length is determined
/// by the block count and the last block's fill.
proof fn lemma_blocks_view_len(s: Seq<Seq<u8>>)
    requires
        forall|i: int| 0 <= i < s.len() - 1 ==> s[i].len() == BLOCK_CAPACITY,
    ensures
        s.len() == 0 ==> blocks_view(s).len() == 0,
        s.len() > 0 ==> blocks_view(s).len() == BLOCK_CAPACITY * (s.len() - 1) + s.last().len(),
    decreases s.len(),
{
    if s.len() > 0 {
        let prefix = s.drop_last();
        assert(forall|i: int| 0 <= i < prefix.len() - 1 ==> prefix[i] == s[i]);
        lemma_blocks_view_len(prefix);
        if prefix.len() > 0 {
            assert(prefix.last() == s[s.len() - 2]);
        }
    }
}

/// Indexing into the chain: symbol `i` lives in block `i / 64` at
/// offset `i % 64`.
proof fn lemma_blocks_view_index(s: Seq<Seq<u8>>, i: int)
    requires
        forall|j: int| 0 <= j < s.len() - 1 ==> s[j].len() == BLOCK_CAPACITY,
        forall|j: int| 0 <= j < s.len() ==> s[j].len() <= BLOCK_CAPACITY,
        0 <= i < blocks_view(s).len(),
    ensures
        0 <= i / (BLOCK_CAPACITY as int) < s.len(),
        0 <= i % (BLOCK_CAPACITY as int) < s[i / (BLOCK_CAPACITY as int)].len(),
        blocks_view(s)[i] == s[i / (BLOCK_CAPACITY as int)][i % (BLOCK_CAPACITY as int)],
    decreases s.len(),
{
    lemma_blocks_view_len(s);
    let cap = BLOCK_CAPACITY as int;
    let prefix = s.drop_last();
    assert(forall|j: int| 0 <= j < prefix.len() ==> prefix[j] == s[j]);
    lemma_blocks_view_len(prefix);
    if i < cap * (s.len() - 1) {
        lemma_blocks_view_index(prefix, i);
    } else {
        let off = i - cap * (s.len() - 1);
        vstd::arithmetic::div_mod::lemma_fundamental_div_mod_converse(i, cap, s.len() - 1, off);
        assert(blocks_view(s)[i] == s.last()[off]);
    }
}

/// A block's symbol count is its view's length.
proof fn lemma_base4_len(b: Base4)
    requires
        b.wf(),
    ensures
        b@.len() == b.size,
        b@.len() <= BLOCK_CAPACITY,
{
    lemma_decode_len(b.encoded as nat, b.size as nat);
}

/// The ghost contents of each block in a chain.
pub open spec fn views_of(s: Seq<Base4>) -> Seq<Seq<u8>> {
    s.map_values(|b: Base4| b@)
}

/// Well-formedness of a chain of blocks: all blocks well-formed, every block
/// but the last full, the last never empty, and the total length fitting a
/// machine word.
spec fn wf_blocks(s: Seq<Base4>) -> bool {
    &&& forall|i: int| 0 <= i < s.len() ==> s[i].wf()
    &&& forall|i: int| 0 <= i < s.len() - 1 ==> s[i]@.len() == BLOCK_CAPACITY
    &&& (s.len() > 0 ==> s.last()@.len() >= 1)
    &&& blocks_view(views_of(s)).len() <= usize::MAX
}

/// Replacing the newest block of a chain determines the new contents and
/// well-formedness, whatever the replacement turns out to hold.
proof fn lemma_swap_last(s: Seq<Base4>)
    requires
        s.len() > 0,
        forall|i: int| 0 <= i < s.len() ==> s[i].wf(),
        forall|i: int| 0 <= i < s.len() - 1 ==> s[i]@.len() == BLOCK_CAPACITY,
    ensures
        forall|nb: Base4| #![trigger s.update(s.len() - 1, nb)]
            {
                &&& blocks_view(views_of(s.update(s.len() - 1, nb))) == blocks_view(
                    views_of(s.drop_last()),
                ) + nb@
                &&& (nb.wf() && 1 <= nb@.len() && blocks_view(views_of(s.drop_last())).len()
                    + nb@.len() <= usize::MAX ==> wf_blocks(s.update(s.len() - 1, nb)))
            },
{
    assert forall|nb: Base4| #![trigger s.update(s.len() - 1, nb)]
        {
            &&& blocks_view(views_of(s.update(s.len() - 1, nb))) == blocks_view(
                views_of(s.drop_last()),
            ) + nb@
            &&& (nb.wf() && 1 <= nb@.len() && blocks_view(views_of(s.drop_last())).len()
                + nb@.len() <= usize::MAX ==> wf_blocks(s.update(s.len() - 1, nb)))
        } by {
        let t = s.update(s.len() - 1, nb);
        assert(views_of(t) =~= views_of(s.drop_last()).push(nb@));
        lemma_blocks_view_push(views_of(s.drop_last()), nb@);
        if nb.wf() && 1 <= nb@.len() && blocks_view(views_of(s.drop_last())).len() + nb@.len()
            <= usize::MAX {
            assert(forall|i: int| 0 <= i < t.len() - 1 ==> t[i] == s[i]);
            assert(t.last() == nb);
            assert(wf_blocks(t));
        }
    }
}

/// An ownership-independent, growable sequence of base-4 symbols, stored
/// as a chain of 64-symbol blocks for constant-time append, removal at the
/// tail, and random access.
///
/// Every block except the newest is full, and a block is dropped the
/// moment it becomes empty.
#[derive(Debug)]
pub struct Base4Int {
    blocks: Vec<Base4>,
}

impl View for Base4Int {
    type V = Seq<u8>;

    /// The symbols held, oldest first.
    closed spec fn view(&self) -> Seq<u8> {
        blocks_view(views_of(self.blocks@))
    }
}

impl Base4Int {
    /// Well-formed: all blocks are well-formed, every block but the last is
    /// full, the last is never empty, and the total length fits a machine
    /// word.
    pub closed spec fn wf(&self) -> bool {
        wf_blocks(self.blocks@)
    }

    /// The ghost chain of block contents.
    closed spec fn bseq(&self) -> Seq<Seq<u8>> {
        views_of(self.blocks@)
    }

    proof fn lemma_wf_facts(&self)
        requires
            self.wf(),
        ensures
            forall|j: int|
                0 <= j < self.bseq().len() - 1 ==> self.bseq()[j].len() == BLOCK_CAPACITY,
            forall|j: int| 0 <= j < self.bseq().len() ==> self.bseq()[j].len() <= BLOCK_CAPACITY,
            self.bseq().len() == 0 ==> self@.len() == 0,
            self.bseq().len() > 0 ==> self@.len() == BLOCK_CAPACITY * (self.bseq().len() - 1)
                + self.bseq().last().len(),
            self.bseq().len() > 0 ==> self.bseq().last().len() >= 1,
    {
        assert forall|j: int| 0 <= j < self.bseq().len() implies self.bseq()[j].len()
            <= BLOCK_CAPACITY by {
            lemma_base4_len(self.blocks@[j]);
        }
        lemma_blocks_view_len(self.bseq());
    }

    pub fn new() -> (r: Base4Int)
        ensures
            r.wf(),
            r@ == Seq::<u8>::empty(),
    {
        Base4Int { blocks: Vec::new() }
    }

    /// Appends each symbol of `ints` in order.
    pub fn push_all(&mut self, ints: &[u8])
        requires
            old(self).wf(),
            old(self)@.len() + ints@.len() <= usize::MAX,
            forall|i: int| 0 <= i < ints@.len() ==> ints@[i] < 4,
        ensures
            final(self).wf(),
            final(self)@ == old(self)@ + ints@,
    {
        let ghost start = self@;
        let n = ints.len();
        let mut i: usize = 0;
        while i < n
            invariant
                self.wf(),
                n == ints@.len(),
                0 <= i <= n,
                start.len() + n <= usize::MAX,
                self@ == start + ints@.take(i as int),
                forall|j: int| 0 <= j < n ==> ints@[j] < 4,
            decreases n - i,
        {
            self.push(ints[i]);
            proof {
                assert(start + ints@.take(i as int) + seq![ints@[i as int]] =~= start + ints@.take(
                    i + 1,
                ));
            }
            i = i + 1;
        }
        proof {
            assert(ints@.take(n as int) =~= ints@);
        }
    }

    /// Appends one symbol in `0..=3` at the tail, opening a new block when
    /// the newest one is full.
    pub fn push(&mut self, integer: u8)
        requires
            old(self).wf(),
            old(self)@.len() < usize::MAX,
            integer < 4,
        ensures
            final(self).wf(),
            final(self)@ == old(self)@.push(integer),
    {
        let ghost pre = self@;
        let codec = self.get_codec();
        let ghost cv = codec@;
        codec.push(integer);
        proof {
            assert(pre.take(pre.len() - cv.len()) + cv =~= pre);
            assert(pre.take(pre.len() - cv.len()) + cv.push(integer) =~= pre.push(integer));
        }
    }

    /// Removes and returns the most recently pushed symbol, dropping the
    /// newest block if it becomes empty.
    pub fn pop(&mut self) -> (r: u8)
        requires
            old(self).wf(),
            old(self)@.len() > 0,
        ensures
            final(self).wf(),
            r == old(self)@.last(),
            r < 4,
            final(self)@ == old(self)@.drop_last(),
    {
        proof {
            self.lemma_wf_facts();
        }
        let ghost pre = self.bseq();
        let n = self.blocks.len();
        let codec = &mut self.blocks[n - 1];
        proof {
            lemma_base4_len(*codec);
        }
        let out = codec.pop();
        let empty = codec.size == 0;
        proof {
            lemma_base4_len(*final(codec));
        }
        let ghost mid = self.bseq();
        proof {
            assert(mid =~= pre.drop_last().push(pre.last().drop_last()));
            lemma_blocks_view_push(pre.drop_last(), pre.last().drop_last());
            assert(blocks_view(mid) =~= blocks_view(pre).drop_last());
        }
        if empty {
            let _ = self.blocks.pop();
            proof {
                assert(self.bseq() =~= mid.drop_last());
                assert(mid.drop_last() == pre.drop_last());
                assert(blocks_view(mid) =~= blocks_view(mid.drop_last()));
                if self.bseq().len() > 0 {
                    assert(self.bseq().last() == pre[pre.len() - 2]);
                }
                lemma_blocks_view_len(self.bseq());
            }
        } else {
            proof {
                lemma_blocks_view_len(mid);
            }
        }
        out
    }

    /// Removes all symbols, returning them oldest first (push order).
    pub fn pop_all(&mut self) -> (r: Vec<u8>)
        requires
            old(self).wf(),
        ensures
            final(self).wf(),
            r@ == old(self)@,
            final(self)@ == Seq::<u8>::empty(),
    {
        let ints = self.peek_all();
        self.blocks = Vec::new();
        ints
    }

    /// A mutable borrow of the newest block, opening a fresh one when the
    /// newest is full or none exists. The structure is well-formed again
    /// once the caller has left the block well-formed and non-empty.
    pub fn get_codec(&mut self) -> (codec: &mut Base4)
        requires
            old(self).wf(),
        ensures
            codec.wf(),
            codec@.len() < BLOCK_CAPACITY,
            codec@.len() <= old(self)@.len(),
            codec@ == old(self)@.skip(old(self)@.len() - codec@.len()),
            final(self)@ == old(self)@.take(old(self)@.len() - codec@.len()) + final(codec)@,
            (final(codec).wf() && 1 <= final(codec)@.len() && old(self)@.len() - codec@.len()
                + final(codec)@.len() <= usize::MAX) ==> final(self).wf(),
    {
        let ghost s = self.blocks@;
        let ghost whole = self@;
        let n = self.blocks.len();
        if n > 0 && self.blocks[n - 1].size < BLOCK_CAPACITY {
            proof {
                lemma_base4_len(s[n - 1]);
                lemma_swap_last(s);
                assert(views_of(s).drop_last() =~= views_of(s.drop_last()));
                assert(whole == blocks_view(views_of(s.drop_last())) + s[n - 1]@);
                assert(s[n - 1]@ =~= whole.skip(whole.len() - s[n - 1]@.len()));
                assert(blocks_view(views_of(s.drop_last())) =~= whole.take(
                    whole.len() - s[n - 1]@.len(),
                ));
            }
            let codec = &mut self.blocks[n - 1];
            return codec;
        }
        proof {
            if n > 0 {
                lemma_base4_len(s[n - 1]);
            }
        }
        self.blocks.push(Base4::new());
        let ghost s2 = self.blocks@;
        proof {
            lemma_swap_last(s2);
            assert(s2.drop_last() =~= s);
            assert(views_of(s2).drop_last() =~= views_of(s));
            assert(s2.last()@ =~= Seq::<u8>::empty());
            assert(blocks_view(views_of(s2)) =~= whole);
            assert(whole.skip(whole.len() - 0) =~= Seq::<u8>::empty());
            assert(whole.take(whole.len() - 0) =~= whole);
        }
        let m = self.blocks.len();
        let codec = &mut self.blocks[m - 1];
        codec
    }

    /// Reads the symbol at position `index` (0 is the oldest) without
    /// removing anything: constant time, locating block `index / 64`,
    /// offset `index % 64`.
    pub fn peek_at(&self, index: usize) -> (r: u8)
        requires
            self.wf(),
            index < self@.len(),
        ensures
            r == self@[index as int],
            r < 4,
    {
        proof {
            self.lemma_wf_facts();
            lemma_blocks_view_index(self.bseq(), index as int);
        }
        let codec_index = index / BLOCK_CAPACITY;
        let peek_index = index % BLOCK_CAPACITY;
        self.blocks[codec_index].peek_at(peek_index)
    }

    /// Reads all symbols, oldest first, without removing anything.
    pub fn peek_all(&self) -> (r: Vec<u8>)
        requires
            self.wf(),
        ensures
            r@ == self@,
    {
        let mut ints: Vec<u8> = Vec::new();
        let n = self.blocks.len();
        let mut i: usize = 0;
        while i < n
            invariant
                self.wf(),
                n == self.blocks@.len(),
                0 <= i <= n,
                ints@ == blocks_view(self.bseq().take(i as int)),
            decreases n - i,
        {
            let mut part = self.blocks[i].peek_all();
            ints.append(&mut part);
            proof {
                assert(self.bseq().take(i + 1) =~= self.bseq().take(i as int).push(
                    self.bseq()[i as int],
                ));
                lemma_blocks_view_push(self.bseq().take(i as int), self.bseq()[i as int]);
            }
            i = i + 1;
        }
        proof {
            assert(self.bseq().take(n as int) =~= self.bseq());
        }
        ints
    }

    /// Total number of symbols held, summed over the blocks.
    pub fn total_len(&self) -> (r: usize)
        requires
            self.wf(),
        ensures
            r == self@.len(),
    {
        proof {
            self.lemma_wf_facts();
        }
        let mut acc: usize = 0;
        let n = self.blocks.len();
        let mut i: usize = 0;
        while i < n
            invariant
                self.wf(),
                n == self.blocks@.len(),
                0 <= i <= n,
                acc == blocks_view(self.bseq().take(i as int)).len(),
                blocks_view(self.bseq().take(i as int)).len() <= self@.len(),
            decreases n - i,
        {
            proof {
                lemma_base4_len(self.blocks@[i as int]);
                assert(self.bseq().take(i + 1) =~= self.bseq().take(i as int).push(
                    self.bseq()[i as int],
                ));
                lemma_blocks_view_push(self.bseq().take(i as int), self.bseq()[i as int]);
                lemma_blocks_view_prefix_len(self.bseq(), i + 1);
            }
            acc = acc + self.blocks[i].size;
            i = i + 1;
        }
        proof {
            assert(self.bseq().take(n as int) =~= self.bseq());
        }
        acc
    }

    /// Number of blocks in the chain: the symbol count divided by the block
    /// capacity, rounded up.
    pub fn total_blocks(&self) -> (r: usize)
        requires
            self.wf(),
        ensures
            r == (self@.len() + BLOCK_CAPACITY - 1) / (BLOCK_CAPACITY as int),
    {
        proof {
            self.lemma_wf_facts();
            let b = self.bseq().len();
            if b > 0 {
                let last = self.bseq().last().len();
                vstd::arithmetic::div_mod::lemma_fundamental_div_mod_converse(
                    self@.len() + BLOCK_CAPACITY - 1,
                    BLOCK_CAPACITY as int,
                    b as int,
                    last - 1,
                );
            }
        }
        self.blocks.len()
    }
}

/// The view of a prefix of the chain never exceeds the whole view.
proof fn lemma_blocks_view_prefix_len(s: Seq<Seq<u8>>, i: int)
    requires
        0 <= i <= s.len(),
    ensures
        blocks_view(s.take(i)).len() <= blocks_view(s).len(),
    decreases s.len() - i,
{
    if i < s.len() {
        lemma_blocks_view_prefix_len(s, i + 1);
        assert(s.take(i + 1) =~= s.take(i).push(s[i]));
        lemma_blocks_view_push(s.take(i), s[i]);
    } else {
        assert(s.take(i) =~= s);
    }
}

/// 4 to the power `k`, computed on machine words.
fn pow4_u128(k: usize) -> (r: u128)
    requires
        k < BLOCK_CAPACITY,
    ensures
        r == pow4(k as nat),
        r >= 1,
{
    proof {
        lemma_pow4_mono(k as nat, 63);
        lemma_pow4_block_values();
        lemma_pow4_pos(k as nat);
    }
    let mut r: u128 = 1;
    let mut i: usize = 0;
    while i < k
        invariant
            0 <= i <= k,
            k < BLOCK_CAPACITY,
            r == pow4(i as nat),
            pow4(k as nat) <= pow4(63),
            pow4(63) == 0x40000000000000000000000000000000,
        decreases k - i,
    {
        proof {
            lemma_pow4_mono((i + 1) as nat, k as nat);
        }
        r = r * 4;
        i = i + 1;
    }
    r
}

} // verus!
