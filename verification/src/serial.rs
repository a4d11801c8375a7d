//! A binary codec for persisting world state: every serializable type
//! states its exact wire image (`enc`) and which streams parse (`dec_ok`,
//! `dec_len`), and proves that parsing a stream that begins with a value's
//! image yields that value back.

use vstd::prelude::*;

verus! {

/// Whether the stream begins with this image.
pub open spec fn begins_with(data: Seq<u8>, img: Seq<u8>) -> bool {
    img.len() <= data.len() && data.take(img.len() as int) == img
}

/// The capability of being written to and read back from a byte stream.
///
/// `enc` is the value's exact wire image; `dec_ok` says which streams begin
/// with a valid image and `dec_len` how long that image is.  Every
/// implementation proves that its own images parse (`lemma_enc_parses`) and
/// that parses stay within the stream (`lemma_dec_len_bounds`).  The
/// executable `write_data` appends exactly `enc`; `read_data` consumes
/// exactly `dec_len` when the stream parses, refuses exactly when it does
/// not, and the value it hands back is `same` as any value whose image the
/// stream begins with — which is the round trip.
pub trait SaveData: Sized {
    /// The value's wire image.
    spec fn enc(&self) -> Seq<u8>;

    /// Whether the value is fit to serialize: only a savable value's image
    /// is promised to parse back.  Plain data is always savable; structured
    /// stores are savable when their invariants hold.
    spec fn savable(&self) -> bool;

    /// The structural equality the codec preserves.
    spec fn same(a: &Self, b: &Self) -> bool;

    /// Whether the stream begins with a valid image of this type.
    spec fn dec_ok(data: Seq<u8>) -> bool;

    /// How many bytes the image at the head of the stream takes, when one
    /// is there.
    spec fn dec_len(data: Seq<u8>) -> int;

    /// A savable value's own image, followed by anything, parses, and the
    /// parse spans exactly the image.
    proof fn lemma_enc_parses(&self, rest: Seq<u8>)
        requires
            self.savable(),
        ensures
            Self::dec_ok(self.enc() + rest),
            Self::dec_len(self.enc() + rest) == self.enc().len(),
    ;

    /// A parse never consumes more than the stream holds, and never runs
    /// backwards.
    proof fn lemma_dec_len_bounds(data: Seq<u8>)
        ensures
            Self::dec_ok(data) ==> 0 <= Self::dec_len(data) <= data.len(),
    ;

    /// Appends the value's wire image to the stream.
    fn write_data(&self, out: &mut Vec<u8>)
        requires
            self.savable(),
        ensures
            final(out)@ == old(out)@ + self.enc(),
    ;

    /// Parses one value off the stream at `pos`, advancing `pos` past its
    /// image; answers nothing and leaves `pos` alone when no valid image
    /// starts there.  Whatever value's image the stream begins with, the
    /// value handed back is structurally the same.
    fn read_data(data: &Vec<u8>, pos: &mut usize) -> (r: Option<Self>)
        requires
            *old(pos) <= data@.len(),
        ensures
            Self::dec_ok(data@.skip(*old(pos) as int)) ==> {
                &&& r is Some
                &&& *final(pos) == *old(pos) + Self::dec_len(data@.skip(*old(pos) as int))
                &&& *final(pos) <= data@.len()
            },
            !Self::dec_ok(data@.skip(*old(pos) as int)) ==> r is None && *final(pos) == *old(pos),
            r matches Some(v) ==> v.savable() && (forall|x: Self|
                x.savable() && begins_with(data@.skip(*old(pos) as int), (#[trigger] x.enc()))
                    ==> Self::same(&v, &x)),
    ;
}

/// The little-endian image of an unsigned 64-bit value.
pub open spec fn u64_le(v: u64) -> Seq<u8> {
    seq![
        (v & 0xff) as u8,
        ((v >> 8) & 0xff) as u8,
        ((v >> 16) & 0xff) as u8,
        ((v >> 24) & 0xff) as u8,
        ((v >> 32) & 0xff) as u8,
        ((v >> 40) & 0xff) as u8,
        ((v >> 48) & 0xff) as u8,
        ((v >> 56) & 0xff) as u8,
    ]
}

/// The value a little-endian 8-byte image parses to.
pub open spec fn u64_of_le(data: Seq<u8>) -> u64 {
    ((data[0] as u64) | ((data[1] as u64) << 8) | ((data[2] as u64) << 16) | ((data[3] as u64)
        << 24) | ((data[4] as u64) << 32) | ((data[5] as u64) << 40) | ((data[6] as u64) << 48) | (
    (data[7] as u64) << 56)) as u64
}

/// Splitting a 64-bit value into little-endian bytes and reassembling them
/// yields the value back.
pub proof fn lemma_u64_le_round_trip(v: u64)
    ensures
        u64_of_le(u64_le(v)) == v,
{
    assert((((v & 0xff) as u8) as u64) | ((((v >> 8) & 0xff) as u8) as u64) << 8 | ((((v >> 16)
        & 0xff) as u8) as u64) << 16 | ((((v >> 24) & 0xff) as u8) as u64) << 24 | ((((v >> 32)
        & 0xff) as u8) as u64) << 32 | ((((v >> 40) & 0xff) as u8) as u64) << 40 | ((((v >> 48)
        & 0xff) as u8) as u64) << 48 | ((((v >> 56) & 0xff) as u8) as u64) << 56 == v)
        by (bit_vector);
}

/// Streams beginning with the same 8 bytes parse to the same 64-bit value.
pub proof fn lemma_u64_of_le_prefix(data: Seq<u8>, img: Seq<u8>)
    requires
        img.len() == 8,
        begins_with(data, img),
    ensures
        u64_of_le(data) == u64_of_le(img),
{
    assert(forall|k: int| 0 <= k < 8 ==> data[k] == data.take(8)[k]);
}

impl SaveData for u64 {
    open spec fn savable(&self) -> bool {
        true
    }

    open spec fn enc(&self) -> Seq<u8> {
        u64_le(*self)
    }

    open spec fn same(a: &u64, b: &u64) -> bool {
        a == b
    }

    open spec fn dec_ok(data: Seq<u8>) -> bool {
        data.len() >= 8
    }

    open spec fn dec_len(data: Seq<u8>) -> int {
        8
    }

    proof fn lemma_enc_parses(&self, rest: Seq<u8>)
    {
    }

    proof fn lemma_dec_len_bounds(data: Seq<u8>)
    {
    }

    fn write_data(&self, out: &mut Vec<u8>)
    {
        let v = *self;
        out.push((v & 0xff) as u8);
        out.push(((v >> 8) & 0xff) as u8);
        out.push(((v >> 16) & 0xff) as u8);
        out.push(((v >> 24) & 0xff) as u8);
        out.push(((v >> 32) & 0xff) as u8);
        out.push(((v >> 40) & 0xff) as u8);
        out.push(((v >> 48) & 0xff) as u8);
        out.push(((v >> 56) & 0xff) as u8);
        proof {
            assert(final(out)@ =~= old(out)@ + self.enc());
        }
    }

    #[verifier::rlimit(100)]
    #[verifier::spinoff_prover]
    fn read_data(data: &Vec<u8>, pos: &mut usize) -> (r: Option<u64>)
        ensures
            r matches Some(v) ==> v == u64_of_le(data@.skip(*old(pos) as int)),
    {
        let p = *pos;
        if data.len() - p >= 8 {
            let v = (data[p] as u64) | ((data[p + 1] as u64) << 8) | ((data[p + 2] as u64) << 16)
                | ((data[p + 3] as u64) << 24) | ((data[p + 4] as u64) << 32) | ((data[p + 5]
                as u64) << 40) | ((data[p + 6] as u64) << 48) | ((data[p + 7] as u64) << 56);
            *pos = p + 8;
            proof {
                let tail = data@.skip(p as int);
                assert(tail[0] == data@[p as int]);
                assert(tail[1] == data@[p + 1]);
                assert(tail[2] == data@[p + 2]);
                assert(tail[3] == data@[p + 3]);
                assert(tail[4] == data@[p + 4]);
                assert(tail[5] == data@[p + 5]);
                assert(tail[6] == data@[p + 6]);
                assert(tail[7] == data@[p + 7]);
                assert(v == u64_of_le(tail));
                assert forall|x: u64|
                    x.savable() && begins_with(tail, (#[trigger] x.enc())) implies u64::same(
                    &v,
                    &x,
                ) by {
                    lemma_u64_of_le_prefix(tail, x.enc());
                    lemma_u64_le_round_trip(x);
                    assert(u64_of_le(x.enc()) == x);
                    assert(v == x);
                }
                assert(u64::dec_ok(tail));
                assert(*pos == p + u64::dec_len(tail));
                assert(*pos <= data@.len());
            }
            Some(v)
        } else {
            proof {
                assert(data@.skip(p as int).len() < 8);
                assert(!u64::dec_ok(data@.skip(p as int)));
            }
            None
        }
    }
}

impl SaveData for usize {
    open spec fn savable(&self) -> bool {
        true
    }

    open spec fn enc(&self) -> Seq<u8> {
        u64_le(*self as u64)
    }

    open spec fn same(a: &usize, b: &usize) -> bool {
        a == b
    }

    open spec fn dec_ok(data: Seq<u8>) -> bool {
        data.len() >= 8 && u64_of_le(data) <= usize::MAX as u64
    }

    open spec fn dec_len(data: Seq<u8>) -> int {
        8
    }

    proof fn lemma_enc_parses(&self, rest: Seq<u8>)
    {
        let e = self.enc();
        let whole = e + rest;
        assert(forall|k: int| 0 <= k < 8 ==> whole[k] == e[k]);
        lemma_u64_le_round_trip(*self as u64);
        assert(u64_of_le(whole) == u64_of_le(e));
    }

    proof fn lemma_dec_len_bounds(data: Seq<u8>)
    {
    }

    fn write_data(&self, out: &mut Vec<u8>)
    {
        let v = *self as u64;
        out.push((v & 0xff) as u8);
        out.push(((v >> 8) & 0xff) as u8);
        out.push(((v >> 16) & 0xff) as u8);
        out.push(((v >> 24) & 0xff) as u8);
        out.push(((v >> 32) & 0xff) as u8);
        out.push(((v >> 40) & 0xff) as u8);
        out.push(((v >> 48) & 0xff) as u8);
        out.push(((v >> 56) & 0xff) as u8);
        proof {
            assert(final(out)@ =~= old(out)@ + self.enc());
        }
    }

    fn read_data(data: &Vec<u8>, pos: &mut usize) -> (r: Option<usize>)
        ensures
            r matches Some(v) ==> (v as u64) == u64_of_le(data@.skip(*old(pos) as int)),
    {
        let start = *pos;
        let ghost tail = data@.skip(start as int);
        let v = match u64::read_data(data, pos) {
            Some(v) => v,
            None => {
                return None;
            },
        };
        proof {
            assert(v == u64_of_le(tail));
        }
        if v <= usize::MAX as u64 {
            proof {
                assert forall|x: usize| begins_with(tail, (#[trigger] x.enc())) implies (v
                    as usize) == x by {
                    lemma_u64_of_le_prefix(tail, x.enc());
                    lemma_u64_le_round_trip(x as u64);
                }
            }
            Some(v as usize)
        } else {
            *pos = start;
            None
        }
    }
}

impl SaveData for u8 {
    open spec fn savable(&self) -> bool {
        true
    }

    open spec fn enc(&self) -> Seq<u8> {
        seq![*self]
    }

    open spec fn same(a: &u8, b: &u8) -> bool {
        a == b
    }

    open spec fn dec_ok(data: Seq<u8>) -> bool {
        data.len() >= 1
    }

    open spec fn dec_len(data: Seq<u8>) -> int {
        1
    }

    proof fn lemma_enc_parses(&self, rest: Seq<u8>)
    {
    }

    proof fn lemma_dec_len_bounds(data: Seq<u8>)
    {
    }

    fn write_data(&self, out: &mut Vec<u8>)
    {
        out.push(*self);
        proof {
            assert(final(out)@ =~= old(out)@ + self.enc());
        }
    }

    fn read_data(data: &Vec<u8>, pos: &mut usize) -> (r: Option<u8>)
        ensures
            r matches Some(v) ==> v == data@.skip(*old(pos) as int)[0],
    {
        let p = *pos;
        if data.len() - p >= 1 {
            let v = data[p];
            *pos = p + 1;
            proof {
                let tail = data@.skip(p as int);
                assert(v == tail[0]);
                assert forall|x: u8| begins_with(tail, (#[trigger] x.enc())) implies v == x by {
                    assert(tail.take(1)[0] == tail[0]);
                }
            }
            Some(v)
        } else {
            None
        }
    }
}

impl SaveData for u32 {
    open spec fn savable(&self) -> bool {
        true
    }

    open spec fn enc(&self) -> Seq<u8> {
        seq![
            (*self & 0xff) as u8,
            ((*self >> 8) & 0xff) as u8,
            ((*self >> 16) & 0xff) as u8,
            ((*self >> 24) & 0xff) as u8,
        ]
    }

    open spec fn same(a: &u32, b: &u32) -> bool {
        a == b
    }

    open spec fn dec_ok(data: Seq<u8>) -> bool {
        data.len() >= 4
    }

    open spec fn dec_len(data: Seq<u8>) -> int {
        4
    }

    proof fn lemma_enc_parses(&self, rest: Seq<u8>)
    {
    }

    proof fn lemma_dec_len_bounds(data: Seq<u8>)
    {
    }

    fn write_data(&self, out: &mut Vec<u8>)
    {
        let v = *self;
        out.push((v & 0xff) as u8);
        out.push(((v >> 8) & 0xff) as u8);
        out.push(((v >> 16) & 0xff) as u8);
        out.push(((v >> 24) & 0xff) as u8);
        proof {
            assert(final(out)@ =~= old(out)@ + self.enc());
        }
    }

    fn read_data(data: &Vec<u8>, pos: &mut usize) -> (r: Option<u32>)
    {
        let p = *pos;
        if data.len() - p >= 4 {
            let v = (data[p] as u32) | ((data[p + 1] as u32) << 8) | ((data[p + 2] as u32) << 16)
                | ((data[p + 3] as u32) << 24);
            *pos = p + 4;
            proof {
                let tail = data@.skip(p as int);
                assert(forall|k: int| 0 <= k < 4 ==> tail[k] == data@[p + k]);
                assert forall|x: u32| begins_with(tail, (#[trigger] x.enc())) implies v == x by {
                    assert(forall|k: int| 0 <= k < 4 ==> tail[k] == tail.take(4)[k]);
                    let w = x;
                    assert((((w & 0xff) as u8) as u32) | ((((w >> 8) & 0xff) as u8) as u32) << 8 | (
                    (((w >> 16) & 0xff) as u8) as u32) << 16 | ((((w >> 24) & 0xff) as u8) as u32)
                        << 24 == w) by (bit_vector);
                }
            }
            Some(v)
        } else {
            None
        }
    }
}


/// Whether two optional values agree under the codec's equality.
pub open spec fn opt_same<T: SaveData>(a: Option<T>, b: Option<T>) -> bool {
    match (a, b) {
        (Some(x), Some(y)) => T::same(&x, &y),
        (None, None) => true,
        _ => false,
    }
}

/// Whether every present slot value is fit to serialize.
pub open spec fn slots_savable<T: SaveData>(s: Seq<Option<T>>) -> bool {
    forall|j: int| 0 <= j < s.len() ==> ((#[trigger] s[j]) matches Some(v) ==> v.savable())
}

/// Whether two slot lists agree pointwise under the codec's equality.
pub open spec fn slots_same<T: SaveData>(a: Seq<Option<T>>, b: Seq<Option<T>>) -> bool {
    a.len() == b.len() && forall|j: int| 0 <= j < a.len() ==> opt_same(#[trigger] a[j], b[j])
}

/// The image of one optional slot: a presence flag, then the value's image
/// when one is there.
pub open spec fn slot_img<T: SaveData>(o: Option<T>) -> Seq<u8> {
    match o {
        Some(v) => seq![1u8] + v.enc(),
        None => seq![0u8],
    }
}

/// The image of a whole slot list, in order.
pub open spec fn slots_enc<T: SaveData>(s: Seq<Option<T>>) -> Seq<u8>
    decreases s.len(),
{
    if s.len() == 0 {
        Seq::empty()
    } else {
        slot_img(s[0]) + slots_enc(s.drop_first())
    }
}

/// How many bytes the slot at the head of the stream takes.
pub open spec fn slot_head_len<T: SaveData>(data: Seq<u8>) -> int {
    if data[0] == 1u8 {
        1 + T::dec_len(data.skip(1))
    } else {
        1
    }
}

/// Whether the stream begins with `n` valid slots.
pub open spec fn slots_dec_ok<T: SaveData>(data: Seq<u8>, n: int) -> bool
    decreases n,
{
    if n <= 0 {
        true
    } else {
        &&& data.len() >= 1
        &&& (data[0] == 0u8 || data[0] == 1u8)
        &&& (data[0] == 1u8 ==> T::dec_ok(data.skip(1)))
        &&& slots_dec_ok::<T>(data.skip(slot_head_len::<T>(data)), n - 1)
    }
}

/// How many bytes `n` slots at the head of the stream take.
pub open spec fn slots_dec_len<T: SaveData>(data: Seq<u8>, n: int) -> int
    decreases n,
{
    if n <= 0 {
        0
    } else {
        slot_head_len::<T>(data) + slots_dec_len::<T>(data.skip(slot_head_len::<T>(data)), n - 1)
    }
}

/// A slot list's own image, followed by anything, parses as that many
/// slots, and the parse spans exactly the image.
pub proof fn lemma_slots_enc_parses<T: SaveData>(s: Seq<Option<T>>, rest: Seq<u8>)
    requires
        slots_savable(s),
    ensures
        slots_dec_ok::<T>(slots_enc(s) + rest, s.len() as int),
        slots_dec_len::<T>(slots_enc(s) + rest, s.len() as int) == slots_enc(s).len(),
    decreases s.len(),
{
    if s.len() == 0 {
        assert(slots_enc(s) =~= Seq::<u8>::empty());
    } else {
        let whole = slots_enc(s) + rest;
        let tail_img = slots_enc(s.drop_first());
        assert(slots_enc(s) == slot_img(s[0]) + tail_img);
        assert(whole =~= slot_img(s[0]) + (tail_img + rest));
        match s[0] {
            Some(v) => {
                assert(slot_img(s[0]) =~= seq![1u8] + v.enc());
                assert(whole[0] == 1u8);
                assert(whole.skip(1) =~= v.enc() + (tail_img + rest));
                v.lemma_enc_parses(tail_img + rest);
                assert(T::dec_len(whole.skip(1)) == v.enc().len());
                assert(slot_head_len::<T>(whole) == 1 + v.enc().len());
                assert(whole.skip(slot_head_len::<T>(whole)) =~= tail_img + rest);
                lemma_slots_enc_parses(s.drop_first(), rest);
            },
            None => {
                assert(slot_img(s[0]) =~= seq![0u8]);
                assert(whole[0] == 0u8);
                assert(slot_head_len::<T>(whole) == 1);
                assert(whole.skip(1) =~= tail_img + rest);
                lemma_slots_enc_parses(s.drop_first(), rest);
            },
        }
    }
}

/// A slot parse never consumes more than the stream holds, and never runs
/// backwards.
pub proof fn lemma_slots_dec_bounds<T: SaveData>(data: Seq<u8>, n: int)
    requires
        slots_dec_ok::<T>(data, n),
    ensures
        0 <= slots_dec_len::<T>(data, n) <= data.len(),
    decreases n,
{
    if n > 0 {
        if data[0] == 1u8 {
            T::lemma_dec_len_bounds(data.skip(1));
        }
        lemma_slots_dec_bounds::<T>(data.skip(slot_head_len::<T>(data)), n - 1);
    }
}

/// Taking one more slot extends the image by exactly that slot's image.
pub proof fn lemma_slots_enc_step<T: SaveData>(s: Seq<Option<T>>, i: int)
    requires
        0 <= i < s.len(),
    ensures
        slots_enc(s.take(i + 1)) =~= slots_enc(s.take(i)) + slot_img(s[i]),
    decreases i,
{
    let a = s.take(i + 1);
    let b = s.take(i);
    if i == 0 {
        assert(a =~= seq![s[0]]);
        assert(b =~= Seq::<Option<T>>::empty());
        assert(a.drop_first() =~= Seq::<Option<T>>::empty());
        assert(slots_enc(a) == slot_img(a[0]) + slots_enc(a.drop_first()));
        assert(slots_enc(a.drop_first()) == Seq::<u8>::empty());
        assert(slots_enc(a) =~= slot_img(s[0]));
    } else {
        let sd = s.drop_first();
        lemma_slots_enc_step(sd, i - 1);
        assert(a.drop_first() =~= sd.take(i));
        assert(b.drop_first() =~= sd.take(i - 1));
        assert(a[0] == s[0] && b[0] == s[0]);
        assert(slots_enc(a) == slot_img(s[0]) + slots_enc(sd.take(i)));
        assert(slots_enc(b) == slot_img(s[0]) + slots_enc(sd.take(i - 1)));
        assert(sd[i - 1] == s[i]);
    }
}

/// A slot list's image splits around any one slot.
pub proof fn lemma_slots_enc_decompose<T: SaveData>(s: Seq<Option<T>>, i: int)
    requires
        0 <= i < s.len(),
    ensures
        slots_enc(s) =~= slots_enc(s.take(i)) + slot_img(s[i]) + slots_enc(s.skip(i + 1)),
    decreases i,
{
    if i == 0 {
        assert(s.take(0) =~= Seq::<Option<T>>::empty());
        assert(s.skip(1) =~= s.drop_first());
    } else {
        let sd = s.drop_first();
        lemma_slots_enc_decompose(sd, i - 1);
        assert(sd.take(i - 1) =~= s.take(i).drop_first());
        assert(sd[i - 1] == s[i]);
        assert(sd.skip(i) =~= s.skip(i + 1));
        assert(slots_enc(s) == slot_img(s[0]) + slots_enc(sd));
        assert(slots_enc(s.take(i)) == slot_img(s[0]) + slots_enc(s.take(i).drop_first()));
    }
}

/// Writes a slot list's image: one flag byte per slot, then the value's
/// image where one is present.
pub fn write_slots<T: SaveData>(slots: &Vec<Option<T>>, out: &mut Vec<u8>)
    requires
        slots_savable(slots@),
    ensures
        final(out)@ == old(out)@ + slots_enc::<T>(slots@),
{
    let ghost base = out@;
    let mut i: usize = 0;
    proof {
        assert(slots@.take(0) =~= Seq::<Option<T>>::empty());
        assert(out@ =~= base + slots_enc::<T>(slots@.take(0)));
    }
    while i < slots.len()
        invariant
            slots_savable(slots@),
            i <= slots@.len(),
            out@ =~= base + slots_enc::<T>(slots@.take(i as int)),
        decreases slots@.len() - i,
    {
        match &slots[i] {
            Some(v) => {
                proof {
                    assert(slots@[i as int] matches Some(x) ==> x.savable());
                }
                out.push(1u8);
                v.write_data(out);
                proof {
                    assert(slot_img(slots@[i as int]) =~= seq![1u8] + v.enc());
                }
            },
            None => {
                out.push(0u8);
                proof {
                    assert(slot_img(slots@[i as int]) =~= seq![0u8]);
                }
            },
        }
        proof {
            lemma_slots_enc_step(slots@, i as int);
            assert(out@ =~= base + slots_enc::<T>(slots@.take(i + 1)));
        }
        i += 1;
    }
    proof {
        assert(slots@.take(slots@.len() as int) =~= slots@);
    }
}

/// Reads `n` slots off the stream at `pos`, advancing `pos` past them;
/// answers nothing and leaves `pos` alone when they do not parse.  The
/// slots handed back agree with any slot list whose image the stream
/// begins with.
pub fn read_slots<T: SaveData>(data: &Vec<u8>, pos: &mut usize, n: u64) -> (r: Option<
    Vec<Option<T>>,
>)
    requires
        *old(pos) <= data@.len(),
    ensures
        slots_dec_ok::<T>(data@.skip(*old(pos) as int), n as int) ==> {
            &&& r is Some
            &&& *final(pos) == *old(pos) + slots_dec_len::<T>(
                data@.skip(*old(pos) as int),
                n as int,
            )
            &&& *final(pos) <= data@.len()
        },
        !slots_dec_ok::<T>(data@.skip(*old(pos) as int), n as int) ==> r is None && *final(pos)
            == *old(pos),
        r matches Some(v) ==> {
            &&& v@.len() == n
            &&& slots_savable(v@)
            &&& forall|xs: Seq<Option<T>>|
                xs.len() == n as int && slots_savable(xs) && begins_with(
                    data@.skip(*old(pos) as int),
                    (#[trigger] slots_enc(xs)),
                ) ==> slots_same(v@, xs)
        },
{
    let start = *pos;
    let ghost t0 = data@.skip(start as int);
    let mut slots: Vec<Option<T>> = Vec::new();
    let mut i: u64 = 0;
    while i < n
        invariant
            *old(pos) == start,
            start <= *pos <= data@.len(),
            i <= n,
            slots@.len() == i,
            t0 == data@.skip(start as int),
            slots_dec_ok::<T>(t0, n as int) == slots_dec_ok::<T>(
                data@.skip(*pos as int),
                n - i,
            ),
            slots_dec_ok::<T>(data@.skip(*pos as int), n - i) ==> slots_dec_len::<T>(
                t0,
                n as int,
            ) == (*pos - start) + slots_dec_len::<T>(data@.skip(*pos as int), n - i),
            slots_savable(slots@),
            forall|xs: Seq<Option<T>>|
                xs.len() == n as int && slots_savable(xs) && begins_with(
                    t0,
                    (#[trigger] slots_enc(xs)),
                ) ==> (*pos - start == slots_enc(xs.take(i as int)).len() && slots_same(
                    slots@,
                    xs.take(i as int),
                )),
        decreases n - i,
    {
        let ghost tcur = data@.skip(*pos as int);
        let ghost iprev = i as int;
        let ghost pprev = *pos as int;
        proof {
            assert(n - i >= 1);
        }
        if *pos >= data.len() {
            proof {
                assert(tcur.len() == 0);
                assert(!slots_dec_ok::<T>(tcur, n - i));
            }
            *pos = start;
            return None;
        }
        let flag = data[*pos];
        *pos += 1;
        if flag == 1u8 {
            match T::read_data(data, pos) {
                Some(v) => {
                    slots.push(Some(v));
                    proof {
                        assert(tcur[0] == 1u8);
                        assert(data@.skip(pprev + 1) =~= tcur.skip(1));
                        assert(T::dec_ok(data@.skip(pprev + 1)));
                        assert(T::dec_ok(tcur.skip(1)));
                        T::lemma_dec_len_bounds(tcur.skip(1));
                        assert(*pos == pprev + 1 + T::dec_len(data@.skip(pprev + 1)));
                        assert(T::dec_len(data@.skip(pprev + 1)) == T::dec_len(tcur.skip(1)));
                        assert(slot_head_len::<T>(tcur) == 1 + T::dec_len(tcur.skip(1)));
                        assert(*pos - pprev == slot_head_len::<T>(tcur));
                        assert(*pos <= data@.len());
                        assert(data@.skip(*pos as int) =~= tcur.skip(slot_head_len::<T>(tcur)));
                        assert forall|xs: Seq<Option<T>>|
                            xs.len() == n as int && slots_savable(xs) && begins_with(
                                t0,
                                (#[trigger] slots_enc(xs)),
                            ) implies (*pos - start == slots_enc(
                            xs.take(iprev + 1),
                        ).len() && slots_same(slots@, xs.take(iprev + 1))) by {
                            lemma_slots_enc_decompose(xs, iprev);
                            lemma_slots_enc_step(xs, iprev);
                            let before = slots_enc(xs.take(iprev));
                            let mid = slot_img(xs[iprev]);
                            let after = slots_enc(xs.skip(iprev + 1));
                            assert(slots_enc(xs) =~= before + mid + after);
                            assert(pprev - start == before.len());
                            assert(begins_with(t0, slots_enc(xs)));
                            assert(t0.take(slots_enc(xs).len() as int) == slots_enc(xs));
                            assert forall|k: int|
                                0 <= k < mid.len() implies tcur[k] == mid[k] by {
                                assert(t0[before.len() + k] == slots_enc(xs)[before.len() + k]);
                                assert(tcur[k] == t0[(pprev - start) + k]);
                            }
                            assert(mid[0] == tcur[0]);
                            assert(xs[iprev] is Some);
                            let xv = xs[iprev]->0;
                            assert(xs[iprev] matches Some(q) ==> q.savable());
                            assert(xv.savable());
                            assert(mid =~= seq![1u8] + xv.enc());
                            assert(begins_with(tcur.skip(1), xv.enc())) by {
                                assert(xv.enc().len() <= tcur.skip(1).len()) by {
                                    assert(slots_enc(xs).len() <= t0.len());
                                }
                                assert forall|k: int|
                                    0 <= k < xv.enc().len() implies tcur.skip(1)[k]
                                    == xv.enc()[k] by {
                                    assert(tcur[1 + k] == mid[1 + k]);
                                }
                                assert(tcur.skip(1).take(xv.enc().len() as int) =~= xv.enc());
                            }
                            assert(T::same(&v, &xv));
                            xv.lemma_enc_parses(tcur.skip(1).skip(xv.enc().len() as int));
                            assert(tcur.skip(1) =~= xv.enc() + tcur.skip(1).skip(
                                xv.enc().len() as int,
                            ));
                            assert(T::dec_len(tcur.skip(1)) == xv.enc().len());
                            assert(slots_enc(xs.take(iprev + 1)).len() == before.len()
                                + mid.len());
                            assert(*pos - start == slots_enc(xs.take(iprev + 1)).len());
                            assert forall|j: int|
                                0 <= j < iprev + 1 implies opt_same(
                                #[trigger] slots@[j],
                                xs.take(iprev + 1)[j],
                            ) by {
                                if j < iprev {
                                    assert(slots_same(slots@.take(iprev), xs.take(iprev)));
                                    assert(slots@.take(iprev)[j] == slots@[j]);
                                    assert(opt_same(slots@.take(iprev)[j], xs.take(iprev)[j]));
                                } else {
                                    assert(slots@[j] == Some(v));
                                    assert(xs.take(iprev + 1)[j] == xs[iprev]);
                                }
                            }
                        }
                    }
                },
                None => {
                    proof {
                        assert(tcur[0] == 1u8);
                        assert(data@.skip(pprev + 1) =~= tcur.skip(1));
                        assert(!T::dec_ok(tcur.skip(1)));
                        assert(!slots_dec_ok::<T>(tcur, n - i));
                    }
                    *pos = start;
                    return None;
                },
            }
        } else if flag == 0u8 {
            slots.push(None);
            proof {
                assert(tcur[0] == 0u8);
                assert(slot_head_len::<T>(tcur) == 1);
                assert(data@.skip(*pos as int) =~= tcur.skip(1));
                assert forall|xs: Seq<Option<T>>|
                    xs.len() == n as int && slots_savable(xs) && begins_with(
                        t0,
                        (#[trigger] slots_enc(xs)),
                    ) implies (*pos - start == slots_enc(xs.take(iprev + 1)).len() && slots_same(
                    slots@,
                    xs.take(iprev + 1),
                )) by {
                    lemma_slots_enc_decompose(xs, iprev);
                    lemma_slots_enc_step(xs, iprev);
                    let before = slots_enc(xs.take(iprev));
                    let mid = slot_img(xs[iprev]);
                    assert(slots_enc(xs) =~= before + mid + slots_enc(xs.skip(iprev + 1)));
                    assert(pprev - start == before.len());
                    assert(t0.take(slots_enc(xs).len() as int) == slots_enc(xs));
                    assert(tcur[0] == t0[(pprev - start) as int]);
                    assert(t0[before.len() as int] == slots_enc(xs)[before.len() as int]);
                    assert(mid[0] == tcur[0]);
                    assert(xs[iprev] is None);
                    assert(mid =~= seq![0u8]);
                    assert(*pos - start == slots_enc(xs.take(iprev + 1)).len());
                    assert forall|j: int|
                        0 <= j < iprev + 1 implies opt_same(
                        #[trigger] slots@[j],
                        xs.take(iprev + 1)[j],
                    ) by {
                        if j < iprev {
                            assert(slots_same(slots@.take(iprev), xs.take(iprev)));
                            assert(slots@.take(iprev)[j] == slots@[j]);
                            assert(opt_same(slots@.take(iprev)[j], xs.take(iprev)[j]));
                        } else {
                            assert(slots@[j] is None);
                            assert(xs.take(iprev + 1)[j] == xs[iprev]);
                        }
                    }
                }
            }
        } else {
            proof {
                assert(tcur[0] != 0u8 && tcur[0] != 1u8);
                assert(!slots_dec_ok::<T>(tcur, n - i));
            }
            *pos = start;
            return None;
        }
        i += 1;
    }
    proof {
        assert(slots_dec_ok::<T>(data@.skip(*pos as int), 0));
        assert forall|xs: Seq<Option<T>>|
            xs.len() == n as int && slots_savable(xs) && begins_with(
                t0,
                (#[trigger] slots_enc(xs)),
            ) implies slots_same(slots@, xs) by {
            assert(xs.take(n as int) =~= xs);
        }
    }
    Some(slots)
}


/// The slot values a usize-slot image at the head of the stream parses to,
/// one entry per slot.
pub open spec fn uslot_vals(data: Seq<u8>, n: int) -> Seq<Option<usize>>
    decreases n,
{
    if n <= 0 {
        Seq::empty()
    } else {
        let head: Seq<Option<usize>> = if data[0] == 1u8 {
            seq![Some(u64_of_le(data.skip(1)) as usize)]
        } else {
            seq![None]
        };
        head + uslot_vals(data.skip(slot_head_len::<usize>(data)), n - 1)
    }
}

/// A usize-slot list's own image parses back to exactly its slots.
pub proof fn lemma_uslots_enc_vals(s: Seq<Option<usize>>, rest: Seq<u8>)
    ensures
        uslot_vals(slots_enc::<usize>(s) + rest, s.len() as int) =~= s,
    decreases s.len(),
{
    if s.len() > 0 {
        let whole = slots_enc::<usize>(s) + rest;
        let tail_img = slots_enc::<usize>(s.drop_first());
        assert(slots_enc::<usize>(s) == slot_img(s[0]) + tail_img);
        assert(whole =~= slot_img(s[0]) + (tail_img + rest));
        lemma_slots_enc_parses::<usize>(s, rest);
        match s[0] {
            Some(v) => {
                assert(slot_img(s[0]) =~= seq![1u8] + v.enc());
                assert(whole[0] == 1u8);
                assert(whole.skip(1) =~= v.enc() + (tail_img + rest));
                v.lemma_enc_parses(tail_img + rest);
                assert(u64_of_le(whole.skip(1)) == v as u64) by {
                    assert(begins_with(whole.skip(1), u64_le(v as u64))) by {
                        assert(whole.skip(1).take(8) =~= u64_le(v as u64));
                    }
                    lemma_u64_of_le_prefix(whole.skip(1), u64_le(v as u64));
                    lemma_u64_le_round_trip(v as u64);
                }
                assert(slot_head_len::<usize>(whole) == 1 + v.enc().len());
                assert(whole.skip(slot_head_len::<usize>(whole)) =~= tail_img + rest);
                lemma_uslots_enc_vals(s.drop_first(), rest);
                assert(uslot_vals(whole, s.len() as int) =~= seq![Some(v)] + uslot_vals(
                    tail_img + rest,
                    s.len() - 1,
                ));
            },
            None => {
                assert(slot_img(s[0]) =~= seq![0u8]);
                assert(whole[0] == 0u8);
                assert(slot_head_len::<usize>(whole) == 1);
                assert(whole.skip(1) =~= tail_img + rest);
                lemma_uslots_enc_vals(s.drop_first(), rest);
                assert(uslot_vals(whole, s.len() as int) =~= seq![None] + uslot_vals(
                    tail_img + rest,
                    s.len() - 1,
                ));
            },
        }
    }
}

/// Reads `n` usize slots off the stream at `pos`, handing back exactly the
/// parsed slot values.
pub fn read_uslots(data: &Vec<u8>, pos: &mut usize, n: u64) -> (r: Option<Vec<Option<usize>>>)
    requires
        *old(pos) <= data@.len(),
    ensures
        slots_dec_ok::<usize>(data@.skip(*old(pos) as int), n as int) ==> {
            &&& r is Some
            &&& *final(pos) == *old(pos) + slots_dec_len::<usize>(
                data@.skip(*old(pos) as int),
                n as int,
            )
            &&& *final(pos) <= data@.len()
        },
        !slots_dec_ok::<usize>(data@.skip(*old(pos) as int), n as int) ==> r is None && *final(pos)
            == *old(pos),
        r matches Some(v) ==> v@.len() == n && v@ =~= uslot_vals(
            data@.skip(*old(pos) as int),
            n as int,
        ),
{
    let start = *pos;
    let ghost t0 = data@.skip(start as int);
    let mut slots: Vec<Option<usize>> = Vec::new();
    let mut i: u64 = 0;
    while i < n
        invariant
            *old(pos) == start,
            start <= *pos <= data@.len(),
            i <= n,
            slots@.len() == i,
            t0 == data@.skip(start as int),
            slots_dec_ok::<usize>(t0, n as int) == slots_dec_ok::<usize>(
                data@.skip(*pos as int),
                n - i,
            ),
            slots_dec_ok::<usize>(data@.skip(*pos as int), n - i) ==> slots_dec_len::<usize>(
                t0,
                n as int,
            ) == (*pos - start) + slots_dec_len::<usize>(data@.skip(*pos as int), n - i),
            uslot_vals(t0, n as int) =~= slots@ + uslot_vals(data@.skip(*pos as int), n - i),
        decreases n - i,
    {
        let ghost tcur = data@.skip(*pos as int);
        let ghost pprev = *pos as int;
        proof {
            assert(n - i >= 1);
        }
        if *pos >= data.len() {
            proof {
                assert(tcur.len() == 0);
                assert(!slots_dec_ok::<usize>(tcur, n - i));
            }
            *pos = start;
            return None;
        }
        let flag = data[*pos];
        *pos += 1;
        if flag == 1u8 {
            match usize::read_data(data, pos) {
                Some(v) => {
                    slots.push(Some(v));
                    proof {
                        assert(tcur[0] == 1u8);
                        assert(data@.skip(pprev + 1) =~= tcur.skip(1));
                        assert(usize::dec_ok(tcur.skip(1)));
                        usize::lemma_dec_len_bounds(tcur.skip(1));
                        assert(*pos == pprev + 1 + usize::dec_len(data@.skip(pprev + 1)));
                        assert(slot_head_len::<usize>(tcur) == 1 + usize::dec_len(tcur.skip(1)));
                        assert(*pos - pprev == slot_head_len::<usize>(tcur));
                        assert(data@.skip(*pos as int) =~= tcur.skip(
                            slot_head_len::<usize>(tcur),
                        ));
                        assert(v as u64 == u64_of_le(tcur.skip(1)));
                        assert(uslot_vals(tcur, n - i) =~= seq![Some(v)] + uslot_vals(
                            data@.skip(*pos as int),
                            n - i - 1,
                        ));
                        assert(slots@ + uslot_vals(data@.skip(*pos as int), n - i - 1) =~= (
                        slots@.drop_last() + uslot_vals(tcur, n - i)));
                    }
                },
                None => {
                    proof {
                        assert(tcur[0] == 1u8);
                        assert(data@.skip(pprev + 1) =~= tcur.skip(1));
                        assert(!usize::dec_ok(tcur.skip(1)));
                        assert(!slots_dec_ok::<usize>(tcur, n - i));
                    }
                    *pos = start;
                    return None;
                },
            }
        } else if flag == 0u8 {
            slots.push(None);
            proof {
                assert(tcur[0] == 0u8);
                assert(slot_head_len::<usize>(tcur) == 1);
                assert(data@.skip(*pos as int) =~= tcur.skip(1));
                assert(uslot_vals(tcur, n - i) =~= seq![None] + uslot_vals(
                    data@.skip(*pos as int),
                    n - i - 1,
                ));
            }
        } else {
            proof {
                assert(tcur[0] != 0u8 && tcur[0] != 1u8);
                assert(!slots_dec_ok::<usize>(tcur, n - i));
            }
            *pos = start;
            return None;
        }
        i += 1;
    }
    proof {
        assert(uslot_vals(data@.skip(*pos as int), 0) =~= Seq::<Option<usize>>::empty());
        assert(slots@ + uslot_vals(data@.skip(*pos as int), 0) =~= slots@);
    }
    Some(slots)
}

} // verus!
