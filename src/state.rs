use vstd::prelude::*;

verus! {

/// The value of a little-endian byte string.
pub open spec fn le_value(b: Seq<u8>) -> nat
    decreases b.len(),
{
    if b.len() == 0 {
        0
    } else {
        b[0] as nat + 256 * le_value(b.drop_first())
    }
}

/// `256` to the power `n`.
pub open spec fn pow256(n: nat) -> nat
    decreases n,
{
    if n == 0 {
        1
    } else {
        256 * pow256((n - 1) as nat)
    }
}

/// Width in bytes of an encoded file state.
pub const STATE_WIDTH: usize = 16;

/// Semantic state of a file: the time it was last modified, in milliseconds
/// since the Unix epoch. Only equality between states carries meaning.
#[derive(Debug, Clone, Copy, PartialEq, Eq, Hash, Structural)]
pub struct FileState(pub u128);

proof fn lemma_pow256_pos(n: nat)
    ensures
        pow256(n) > 0,
    decreases n,
{
    if n > 0 {
        lemma_pow256_pos((n - 1) as nat);
    }
}

proof fn lemma_pow256_16()
    ensures
        pow256(16) == 0x1_0000_0000_0000_0000_0000_0000_0000_0000nat,
{
    reveal_with_fuel(pow256, 17);
}

proof fn lemma_le_value_bound(b: Seq<u8>)
    ensures
        le_value(b) < pow256(b.len()),
    decreases b.len(),
{
    if b.len() > 0 {
        lemma_le_value_bound(b.drop_first());
        let r = le_value(b.drop_first());
        let p = pow256((b.len() - 1) as nat);
        assert(r + 1 <= p);
        assert(256 * (r + 1) <= 256 * p) by (nonlinear_arith)
            requires
                r + 1 <= p,
        ;
    }
}

impl FileState {
    /// The state of a file last modified `millis` milliseconds after the epoch.
    pub fn from_millis(millis: u128) -> (r: FileState)
        ensures
            r.0 == millis,
    {
        FileState(millis)
    }

    /// The fixed width of the table encoding of a state.
    pub fn fixed_width() -> (r: usize)
        ensures
            r == STATE_WIDTH,
    {
        STATE_WIDTH
    }

    /// The name under which the state table's value type is recorded.
    pub fn table_type_name() -> (r: &'static str)
        ensures
            r@ == "vault::FileState"@,
    {
        proof {
            reveal_strlit("vault::FileState");
        }
        "vault::FileState"
    }

    /// The sixteen little-endian bytes of the stamp.
    pub fn as_bytes(&self) -> (r: Vec<u8>)
        ensures
            r@.len() == STATE_WIDTH,
            le_value(r@) == self.0,
    {
        let mut out: Vec<u8> = Vec::new();
        let mut x: u128 = self.0;
        let mut i: usize = 0;
        proof {
            lemma_pow256_16();
            assert(le_value(out@) == 0);
            assert(pow256(0) == 1);
            assert(pow256(0) * x == x);
        }
        while i < STATE_WIDTH
            invariant
                i <= STATE_WIDTH,
                out@.len() == i,
                self.0 == le_value(out@) + pow256(i as nat) * x,
                x < pow256((STATE_WIDTH - i) as nat),
            decreases STATE_WIDTH - i,
        {
            let d: u8 = (x % 256) as u8;
            let q: u128 = x / 256;
            proof {
                lemma_le_value_push(out@, d);
                let p = pow256(i as nat);
                assert(pow256((i + 1) as nat) == 256 * p);
                assert(x == 256 * q + d);
                assert(p * x == p * d + (256 * p) * q) by (nonlinear_arith)
                    requires
                        x == 256 * q + d,
                ;
                let rest = pow256((STATE_WIDTH - i - 1) as nat);
                assert(pow256((STATE_WIDTH - i) as nat) == 256 * rest);
                assert(q < rest) by (nonlinear_arith)
                    requires
                        x < 256 * rest,
                        x == 256 * q + d,
                        0 <= d,
                ;
            }
            out.push(d);
            x = q;
            i = i + 1;
        }
        proof {
            assert(pow256(0) == 1);
            assert(x == 0);
        }
        out
    }

    /// Reads a stamp back from its sixteen little-endian bytes.
    pub fn from_bytes(data: &[u8]) -> (r: FileState)
        requires
            data@.len() == STATE_WIDTH,
        ensures
            r.0 == le_value(data@),
    {
        let mut acc: u128 = 0;
        let mut i: usize = STATE_WIDTH;
        proof {
            lemma_pow256_16();
            assert(data@.subrange(16, 16) =~= Seq::<u8>::empty());
        }
        while i > 0
            invariant
                i <= STATE_WIDTH,
                data@.len() == STATE_WIDTH,
                acc == le_value(data@.subrange(i as int, STATE_WIDTH as int)),
            decreases i,
        {
            proof {
                let tail = data@.subrange(i as int, STATE_WIDTH as int);
                let next = data@.subrange(i - 1, STATE_WIDTH as int);
                assert(next.drop_first() =~= tail);
                assert(le_value(next) == next[0] as nat + 256 * le_value(tail));
                lemma_le_value_bound(next);
                assert(pow256(next.len()) <= pow256(16)) by {
                    lemma_pow256_mono(next.len(), 16);
                }
                lemma_pow256_16();
                assert(next[0] == data@[i - 1]);
                assert(acc * 256 + data@[i - 1] == le_value(next));
            }
            acc = acc * 256 + data[i - 1] as u128;
            i = i - 1;
        }
        proof {
            assert(data@.subrange(0, 16) =~= data@);
        }
        FileState(acc)
    }
}

proof fn lemma_pow256_mono(a: nat, b: nat)
    requires
        a <= b,
    ensures
        pow256(a) <= pow256(b),
    decreases b,
{
    if a < b {
        lemma_pow256_mono(a, (b - 1) as nat);
        lemma_pow256_pos((b - 1) as nat);
    }
}

proof fn lemma_le_value_push(s: Seq<u8>, d: u8)
    ensures
        le_value(s.push(d)) == le_value(s) + pow256(s.len()) * d,
    decreases s.len(),
{
    if s.len() == 0 {
        assert(s.push(d).drop_first() =~= Seq::<u8>::empty());
        assert(le_value(Seq::<u8>::empty()) == 0);
        assert(pow256(0) == 1);
        assert(le_value(s) == 0);
    } else {
        assert(s.push(d).drop_first() =~= s.drop_first().push(d));
        assert(s.push(d)[0] == s[0]);
        lemma_le_value_push(s.drop_first(), d);
        let p = pow256((s.len() - 1) as nat);
        let r = le_value(s.drop_first());
        assert(pow256(s.len()) == 256 * p);
        assert(256 * (r + p * d) == 256 * r + (256 * p) * d) by (nonlinear_arith);
    }
}

proof fn lemma_le_value_injective(a: Seq<u8>, b: Seq<u8>)
    requires
        a.len() == b.len(),
        le_value(a) == le_value(b),
    ensures
        a == b,
    decreases a.len(),
{
    if a.len() > 0 {
        let x = a[0] as int;
        let u = b[0] as int;
        let y = le_value(a.drop_first()) as int;
        let v = le_value(b.drop_first()) as int;
        assert(x == u && y == v) by (nonlinear_arith)
            requires
                x + 256 * y == u + 256 * v,
                0 <= x < 256,
                0 <= u < 256,
                y >= 0,
                v >= 0,
        ;
        lemma_le_value_injective(a.drop_first(), b.drop_first());
        assert(a =~= seq![a[0]] + a.drop_first());
        assert(b =~= seq![b[0]] + b.drop_first());
    } else {
        assert(a =~= b);
    }
}

/// Encoding the stamp decoded from sixteen bytes gives those bytes back.
pub proof fn lemma_state_bytes_round_trip(bytes: Seq<u8>, s: FileState, encoded: Seq<u8>)
    requires
        bytes.len() == STATE_WIDTH,
        s.0 == le_value(bytes),
        encoded.len() == STATE_WIDTH,
        le_value(encoded) == s.0,
    ensures
        encoded == bytes,
{
    lemma_le_value_injective(encoded, bytes);
}

/// Decoding the encoding of a stamp gives the stamp back.
pub proof fn lemma_state_round_trip(s: FileState, bytes: Seq<u8>)
    requires
        bytes.len() == STATE_WIDTH,
        le_value(bytes) == s.0,
    ensures
        FileState(le_value(bytes) as u128) == s,
{
}

} // verus!
