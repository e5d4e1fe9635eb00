//! The settings tree: a recursive tagged value with a self-describing binary
//! form, and the merge of override values into a settings document.
//!
//! One value is a type tag byte, a reserved flag byte (written as zero) and a
//! payload. Counts and long string lengths are little-endian `u32`s; numbers
//! are the eight little-endian bytes of their IEEE-754 bit pattern. A string
//! is a byte that is 1 when it is empty; otherwise that byte is 0 and is
//! followed by the length (one byte below 255, else 255 and a `u32`) and the
//! bytes themselves.

use vstd::prelude::*;

verus! {

pub const TAG_NOTHING: u8 = 0;
pub const TAG_BOOL: u8 = 1;
pub const TAG_NUMBER: u8 = 2;
pub const TAG_TEXT: u8 = 3;
pub const TAG_LIST: u8 = 4;
pub const TAG_DICTIONARY: u8 = 5;

/// A settings value; a number is held as its IEEE-754 bit pattern, text as
/// its bytes.
#[derive(Debug)]
pub enum SettingsValue {
    Nothing,
    Bool(bool),
    Number(u64),
    Text(Vec<u8>),
    List(Vec<SettingsValue>),
    Dictionary(Vec<(Vec<u8>, SettingsValue)>),
}

/// The mathematical form of a settings value.
pub enum Tree {
    Nothing,
    Bool(bool),
    Number(u64),
    Text(Seq<u8>),
    List(Seq<Tree>),
    Dict(Seq<(Seq<u8>, Tree)>),
}

pub open spec fn tree_of(v: SettingsValue) -> Tree
    decreases v,
{
    match v {
        SettingsValue::Nothing => Tree::Nothing,
        SettingsValue::Bool(b) => Tree::Bool(b),
        SettingsValue::Number(n) => Tree::Number(n),
        SettingsValue::Text(s) => Tree::Text(s@),
        SettingsValue::List(items) => Tree::List(trees_of(items@)),
        SettingsValue::Dictionary(pairs) => Tree::Dict(pairs_of(pairs@)),
    }
}

pub open spec fn trees_of(s: Seq<SettingsValue>) -> Seq<Tree>
    decreases s,
{
    if s.len() == 0 {
        Seq::empty()
    } else {
        trees_of(s.drop_last()).push(tree_of(s.last()))
    }
}

pub open spec fn pairs_of(s: Seq<(Vec<u8>, SettingsValue)>) -> Seq<(Seq<u8>, Tree)>
    decreases s,
{
    if s.len() == 0 {
        Seq::empty()
    } else {
        pairs_of(s.drop_last()).push((s.last().0@, tree_of(s.last().1)))
    }
}

// ---- byte forms ----

pub open spec fn u32_bytes(n: u32) -> Seq<u8> {
    seq![n as u8, (n >> 8) as u8, (n >> 16) as u8, (n >> 24) as u8]
}

pub open spec fn u64_bytes(n: u64) -> Seq<u8> {
    seq![
        n as u8,
        (n >> 8) as u8,
        (n >> 16) as u8,
        (n >> 24) as u8,
        (n >> 32) as u8,
        (n >> 40) as u8,
        (n >> 48) as u8,
        (n >> 56) as u8,
    ]
}

pub open spec fn read_u32(b: Seq<u8>, p: int) -> u32 {
    (b[p] as u32) | ((b[p + 1] as u32) << 8) | ((b[p + 2] as u32) << 16) | ((b[p + 3] as u32) << 24)
}

pub open spec fn read_u64(b: Seq<u8>, p: int) -> u64 {
    (b[p] as u64) | ((b[p + 1] as u64) << 8) | ((b[p + 2] as u64) << 16) | ((b[p + 3] as u64) << 24)
        | ((b[p + 4] as u64) << 32) | ((b[p + 5] as u64) << 40) | ((b[p + 6] as u64) << 48) | ((
    b[p + 7] as u64) << 56)
}

pub open spec fn enc_str(s: Seq<u8>) -> Seq<u8> {
    if s.len() == 0 {
        seq![1u8]
    } else if s.len() < 255 {
        seq![0u8, s.len() as u8] + s
    } else {
        seq![0u8, 255u8] + u32_bytes(s.len() as u32) + s
    }
}

/// The bytes of a value.
pub open spec fn enc(t: Tree) -> Seq<u8>
    decreases t,
{
    match t {
        Tree::Nothing => seq![TAG_NOTHING, 0u8],
        Tree::Bool(b) => seq![TAG_BOOL, 0u8, if b { 1u8 } else { 0u8 }],
        Tree::Number(n) => seq![TAG_NUMBER, 0u8] + u64_bytes(n),
        Tree::Text(s) => seq![TAG_TEXT, 0u8] + enc_str(s),
        Tree::List(s) => seq![TAG_LIST, 0u8] + u32_bytes(s.len() as u32) + enc_list(s),
        Tree::Dict(s) => seq![TAG_DICTIONARY, 0u8] + u32_bytes(s.len() as u32) + enc_pairs(s),
    }
}

pub open spec fn enc_list(s: Seq<Tree>) -> Seq<u8>
    decreases s,
{
    if s.len() == 0 {
        Seq::empty()
    } else {
        enc_list(s.drop_last()) + enc(s.last())
    }
}

pub open spec fn enc_pairs(s: Seq<(Seq<u8>, Tree)>) -> Seq<u8>
    decreases s,
{
    if s.len() == 0 {
        Seq::empty()
    } else {
        enc_pairs(s.drop_last()) + enc_str(s.last().0) + enc(s.last().1)
    }
}

/// Every string, list and dictionary of `t` has a length that fits in a `u32`.
pub open spec fn encodable(t: Tree) -> bool
    decreases t,
{
    match t {
        Tree::Text(s) => s.len() <= u32::MAX,
        Tree::List(s) => s.len() <= u32::MAX && all_encodable(s),
        Tree::Dict(s) => s.len() <= u32::MAX && all_pairs_encodable(s),
        _ => true,
    }
}

pub open spec fn all_encodable(s: Seq<Tree>) -> bool
    decreases s,
{
    s.len() == 0 || (all_encodable(s.drop_last()) && encodable(s.last()))
}

pub open spec fn all_pairs_encodable(s: Seq<(Seq<u8>, Tree)>) -> bool
    decreases s,
{
    s.len() == 0 || (all_pairs_encodable(s.drop_last()) && s.last().0.len() <= u32::MAX
        && encodable(s.last().1))
}

/// Reads a string at `p`: its bytes and the position after it.
pub open spec fn dec_str(b: Seq<u8>, p: int) -> Option<(Seq<u8>, int)> {
    if p < 0 || p >= b.len() {
        None
    } else if b[p] != 0 {
        Some((Seq::empty(), p + 1))
    } else if p + 2 > b.len() {
        None
    } else if b[p + 1] < 255 {
        let n = b[p + 1] as int;
        if p + 2 + n <= b.len() {
            Some((b.subrange(p + 2, p + 2 + n), p + 2 + n))
        } else {
            None
        }
    } else if p + 6 > b.len() {
        None
    } else {
        let n = read_u32(b, p + 2) as int;
        if p + 6 + n <= b.len() {
            Some((b.subrange(p + 6, p + 6 + n), p + 6 + n))
        } else {
            None
        }
    }
}

/// Reads a value at `p`: the value and the position after it.
pub open spec fn dec(b: Seq<u8>, p: int) -> Option<(Tree, int)>
    decreases b.len() - p, 1int,
{
    if p < 0 || p + 2 > b.len() {
        None
    } else {
        let q = p + 2;
        let tag = b[p];
        if tag == TAG_NOTHING {
            Some((Tree::Nothing, q))
        } else if tag == TAG_BOOL {
            if q < b.len() {
                Some((Tree::Bool(b[q] != 0), q + 1))
            } else {
                None
            }
        } else if tag == TAG_NUMBER {
            if q + 8 <= b.len() {
                Some((Tree::Number(read_u64(b, q)), q + 8))
            } else {
                None
            }
        } else if tag == TAG_TEXT {
            match dec_str(b, q) {
                Some((s, e)) => Some((Tree::Text(s), e)),
                None => None,
            }
        } else if tag == TAG_LIST {
            if q + 4 <= b.len() {
                match dec_list(b, q + 4, read_u32(b, q) as nat) {
                    Some((s, e)) => Some((Tree::List(s), e)),
                    None => None,
                }
            } else {
                None
            }
        } else if tag == TAG_DICTIONARY {
            if q + 4 <= b.len() {
                match dec_pairs(b, q + 4, read_u32(b, q) as nat) {
                    Some((s, e)) => Some((Tree::Dict(s), e)),
                    None => None,
                }
            } else {
                None
            }
        } else {
            None
        }
    }
}

/// Reads `n` values from `p` on.
pub open spec fn dec_list(b: Seq<u8>, p: int, n: nat) -> Option<(Seq<Tree>, int)>
    decreases b.len() - p, 2int,
{
    if n == 0 {
        Some((Seq::empty(), p))
    } else {
        match dec(b, p) {
            Some((t, e)) => if p < e <= b.len() {
                match dec_list(b, e, (n - 1) as nat) {
                    Some((s, f)) => Some((seq![t] + s, f)),
                    None => None,
                }
            } else {
                None
            },
            None => None,
        }
    }
}

/// Reads `n` key-value pairs from `p` on.
pub open spec fn dec_pairs(b: Seq<u8>, p: int, n: nat) -> Option<(Seq<(Seq<u8>, Tree)>, int)>
    decreases b.len() - p, 2int,
{
    if n == 0 {
        Some((Seq::empty(), p))
    } else {
        match dec_str(b, p) {
            Some((k, e)) => if p < e <= b.len() {
                match dec(b, e) {
                    Some((t, f)) => if e < f <= b.len() {
                        match dec_pairs(b, f, (n - 1) as nat) {
                            Some((s, g)) => Some((seq![(k, t)] + s, g)),
                            None => None,
                        }
                    } else {
                        None
                    },
                    None => None,
                }
            } else {
                None
            },
            None => None,
        }
    }
}

// ---- the round trip ----

proof fn lemma_split(b: Seq<u8>, p: int, x: Seq<u8>, y: Seq<u8>)
    requires
        0 <= p,
        p + x.len() + y.len() <= b.len(),
        b.subrange(p, p + x.len() + y.len()) == x + y,
    ensures
        b.subrange(p, p + x.len()) == x,
        b.subrange(p + x.len(), p + x.len() + y.len()) == y,
{
    assert(b.subrange(p, p + x.len()) =~= (x + y).subrange(0, x.len() as int));
    assert(b.subrange(p + x.len(), p + x.len() + y.len()) =~= (x + y).subrange(
        x.len() as int,
        (x.len() + y.len()) as int,
    ));
}

proof fn lemma_u32_round(b: Seq<u8>, p: int, n: u32)
    requires
        0 <= p,
        p + 4 <= b.len(),
        b.subrange(p, p + 4) == u32_bytes(n),
    ensures
        read_u32(b, p) == n,
{
    assert(b[p] == b.subrange(p, p + 4)[0]);
    assert(b[p + 1] == b.subrange(p, p + 4)[1]);
    assert(b[p + 2] == b.subrange(p, p + 4)[2]);
    assert(b[p + 3] == b.subrange(p, p + 4)[3]);
    assert(((n as u8) as u32) | ((((n >> 8) as u8) as u32) << 8) | ((((n >> 16) as u8) as u32) << 16)
        | ((((n >> 24) as u8) as u32) << 24) == n) by (bit_vector);
}

proof fn lemma_u64_round(b: Seq<u8>, p: int, n: u64)
    requires
        0 <= p,
        p + 8 <= b.len(),
        b.subrange(p, p + 8) == u64_bytes(n),
    ensures
        read_u64(b, p) == n,
{
    let w = b.subrange(p, p + 8);
    assert(b[p] == w[0] && b[p + 1] == w[1] && b[p + 2] == w[2] && b[p + 3] == w[3]);
    assert(b[p + 4] == w[4] && b[p + 5] == w[5] && b[p + 6] == w[6] && b[p + 7] == w[7]);
    assert(((n as u8) as u64) | ((((n >> 8) as u8) as u64) << 8) | ((((n >> 16) as u8) as u64) << 16)
        | ((((n >> 24) as u8) as u64) << 24) | ((((n >> 32) as u8) as u64) << 32) | ((((n
        >> 40) as u8) as u64) << 40) | ((((n >> 48) as u8) as u64) << 48) | ((((n >> 56) as u8)
        as u64) << 56) == n) by (bit_vector);
}

proof fn lemma_str_round(s: Seq<u8>, b: Seq<u8>, p: int)
    requires
        s.len() <= u32::MAX,
        0 <= p,
        p + enc_str(s).len() <= b.len(),
        b.subrange(p, p + enc_str(s).len()) == enc_str(s),
    ensures
        dec_str(b, p) == Some((s, p + enc_str(s).len())),
{
    let e = enc_str(s);
    assert(b[p] == e[0]);
    if s.len() == 0 {
    } else if s.len() < 255 {
        assert(b[p + 1] == e[1]);
        lemma_split(b, p, seq![0u8, s.len() as u8], s);
    } else {
        assert(b[p + 1] == e[1]);
        lemma_split(b, p, seq![0u8, 255u8] + u32_bytes(s.len() as u32), s);
        lemma_split(b, p, seq![0u8, 255u8], u32_bytes(s.len() as u32));
        lemma_u32_round(b, p + 2, s.len() as u32);
    }
}

proof fn lemma_enc_list_front(s: Seq<Tree>)
    requires
        s.len() > 0,
    ensures
        enc_list(s) == enc(s[0]) + enc_list(s.drop_first()),
        all_encodable(s) ==> encodable(s[0]) && all_encodable(s.drop_first()),
    decreases s.len(),
{
    if s.len() == 1 {
        assert(s.drop_last() =~= Seq::<Tree>::empty());
        assert(s.drop_first() =~= Seq::<Tree>::empty());
        assert(enc_list(s) =~= enc(s[0]) + enc_list(s.drop_first()));
    } else {
        let t = s.drop_last();
        lemma_enc_list_front(t);
        assert(t.drop_first() =~= s.drop_first().drop_last());
        assert(s.drop_first().last() == s.last());
        assert(enc_list(s) =~= enc(s[0]) + enc_list(s.drop_first()));
    }
}

proof fn lemma_enc_pairs_front(s: Seq<(Seq<u8>, Tree)>)
    requires
        s.len() > 0,
    ensures
        enc_pairs(s) == enc_str(s[0].0) + enc(s[0].1) + enc_pairs(s.drop_first()),
        all_pairs_encodable(s) ==> s[0].0.len() <= u32::MAX && encodable(s[0].1)
            && all_pairs_encodable(s.drop_first()),
    decreases s.len(),
{
    if s.len() == 1 {
        assert(s.drop_last() =~= Seq::<(Seq<u8>, Tree)>::empty());
        assert(s.drop_first() =~= Seq::<(Seq<u8>, Tree)>::empty());
        assert(enc_pairs(s) =~= enc_str(s[0].0) + enc(s[0].1) + enc_pairs(s.drop_first()));
    } else {
        let t = s.drop_last();
        lemma_enc_pairs_front(t);
        assert(t.drop_first() =~= s.drop_first().drop_last());
        assert(s.drop_first().last() == s.last());
        assert(enc_pairs(s) =~= enc_str(s[0].0) + enc(s[0].1) + enc_pairs(s.drop_first()));
    }
}

proof fn lemma_enc_len(t: Tree)
    ensures
        enc(t).len() >= 2,
{
}

/// Reading back the bytes of an encodable value gives the value and the
/// position right after those bytes, whatever follows them.
pub proof fn lemma_decode_encoded(t: Tree, b: Seq<u8>, p: int)
    requires
        encodable(t),
        0 <= p,
        p + enc(t).len() <= b.len(),
        b.subrange(p, p + enc(t).len()) == enc(t),
    ensures
        dec(b, p) == Some((t, p + enc(t).len())),
    decreases t, 1int,
{
    let e = enc(t);
    assert(b[p] == e[0]);
    let q = p + 2;
    match t {
        Tree::Nothing => {},
        Tree::Bool(x) => {
            assert(b[q] == e[2]);
        },
        Tree::Number(n) => {
            lemma_split(b, p, seq![TAG_NUMBER, 0u8], u64_bytes(n));
            lemma_u64_round(b, q, n);
        },
        Tree::Text(s) => {
            lemma_split(b, p, seq![TAG_TEXT, 0u8], enc_str(s));
            lemma_str_round(s, b, q);
        },
        Tree::List(s) => {
            let h = seq![TAG_LIST, 0u8] + u32_bytes(s.len() as u32);
            lemma_split(b, p, h, enc_list(s));
            lemma_split(b, p, seq![TAG_LIST, 0u8], u32_bytes(s.len() as u32));
            lemma_u32_round(b, q, s.len() as u32);
            lemma_decode_encoded_list(s, b, q + 4);
        },
        Tree::Dict(s) => {
            let h = seq![TAG_DICTIONARY, 0u8] + u32_bytes(s.len() as u32);
            lemma_split(b, p, h, enc_pairs(s));
            lemma_split(b, p, seq![TAG_DICTIONARY, 0u8], u32_bytes(s.len() as u32));
            lemma_u32_round(b, q, s.len() as u32);
            lemma_decode_encoded_pairs(s, b, q + 4);
        },
    }
}

proof fn lemma_decode_encoded_list(s: Seq<Tree>, b: Seq<u8>, p: int)
    requires
        all_encodable(s),
        0 <= p,
        p + enc_list(s).len() <= b.len(),
        b.subrange(p, p + enc_list(s).len()) == enc_list(s),
    ensures
        dec_list(b, p, s.len()) == Some((s, p + enc_list(s).len())),
    decreases s, 0int,
{
    if s.len() > 0 {
        lemma_enc_list_front(s);
        let r = s.drop_first();
        lemma_split(b, p, enc(s[0]), enc_list(r));
        lemma_decode_encoded(s[0], b, p);
        lemma_enc_len(s[0]);
        lemma_decode_encoded_list(r, b, p + enc(s[0]).len());
        assert(seq![s[0]] + r =~= s);
    }
}

proof fn lemma_decode_encoded_pairs(s: Seq<(Seq<u8>, Tree)>, b: Seq<u8>, p: int)
    requires
        all_pairs_encodable(s),
        0 <= p,
        p + enc_pairs(s).len() <= b.len(),
        b.subrange(p, p + enc_pairs(s).len()) == enc_pairs(s),
    ensures
        dec_pairs(b, p, s.len()) == Some((s, p + enc_pairs(s).len())),
    decreases s, 0int,
{
    if s.len() > 0 {
        lemma_enc_pairs_front(s);
        let r = s.drop_first();
        let k = enc_str(s[0].0);
        let v = enc(s[0].1);
        lemma_split(b, p, k + v, enc_pairs(r));
        lemma_split(b, p, k, v);
        lemma_str_round(s[0].0, b, p);
        lemma_decode_encoded(s[0].1, b, p + k.len());
        lemma_enc_len(s[0].1);
        lemma_decode_encoded_pairs(r, b, p + k.len() + v.len());
        assert(seq![(s[0].0, s[0].1)] + r =~= s);
    }
}

/// Decoding the encoding of an encodable value gives the value back and
/// consumes every byte.
pub proof fn lemma_round_trip(t: Tree)
    requires
        encodable(t),
    ensures
        dec(enc(t), 0) == Some((t, enc(t).len() as int)),
{
    assert(enc(t).subrange(0, enc(t).len() as int) =~= enc(t));
    lemma_decode_encoded(t, enc(t), 0);
}

// ---- executable encoding ----

proof fn lemma_trees_of(s: Seq<SettingsValue>)
    ensures
        trees_of(s).len() == s.len(),
        forall|i: int| 0 <= i < s.len() ==> trees_of(s)[i] == tree_of(#[trigger] s[i]),
    decreases s.len(),
{
    if s.len() > 0 {
        let t = s.drop_last();
        lemma_trees_of(t);
        assert forall|i: int| 0 <= i < s.len() implies trees_of(s)[i] == tree_of(#[trigger] s[i]) by {
            if i < s.len() - 1 {
                assert(t[i] == s[i]);
            }
        }
    }
}

proof fn lemma_pairs_of(s: Seq<(Vec<u8>, SettingsValue)>)
    ensures
        pairs_of(s).len() == s.len(),
        forall|i: int| 0 <= i < s.len() ==> pairs_of(s)[i] == (s[i].0@, tree_of(#[trigger] s[i].1)),
    decreases s.len(),
{
    if s.len() > 0 {
        let t = s.drop_last();
        lemma_pairs_of(t);
        assert forall|i: int| 0 <= i < s.len() implies pairs_of(s)[i] == (s[i].0@, tree_of(#[trigger] s[i].1)) by {
            if i < s.len() - 1 {
                assert(t[i] == s[i]);
            }
        }
    }
}

proof fn lemma_all_encodable(s: Seq<Tree>, i: int)
    requires
        all_encodable(s),
        0 <= i < s.len(),
    ensures
        encodable(s[i]),
    decreases s.len(),
{
    if i < s.len() - 1 {
        lemma_all_encodable(s.drop_last(), i);
    }
}

proof fn lemma_all_pairs_encodable(s: Seq<(Seq<u8>, Tree)>, i: int)
    requires
        all_pairs_encodable(s),
        0 <= i < s.len(),
    ensures
        encodable(s[i].1),
        s[i].0.len() <= u32::MAX,
    decreases s.len(),
{
    if i < s.len() - 1 {
        lemma_all_pairs_encodable(s.drop_last(), i);
    }
}

fn push_u32(out: &mut Vec<u8>, n: u32)
    ensures
        final(out)@ == old(out)@ + u32_bytes(n),
{
    out.push(n as u8);
    out.push((n >> 8) as u8);
    out.push((n >> 16) as u8);
    out.push((n >> 24) as u8);
    assert(final(out)@ =~= old(out)@ + u32_bytes(n));
}

fn push_u64(out: &mut Vec<u8>, n: u64)
    ensures
        final(out)@ == old(out)@ + u64_bytes(n),
{
    out.push(n as u8);
    out.push((n >> 8) as u8);
    out.push((n >> 16) as u8);
    out.push((n >> 24) as u8);
    out.push((n >> 32) as u8);
    out.push((n >> 40) as u8);
    out.push((n >> 48) as u8);
    out.push((n >> 56) as u8);
    assert(final(out)@ =~= old(out)@ + u64_bytes(n));
}

fn push_bytes(out: &mut Vec<u8>, s: &[u8])
    ensures
        final(out)@ == old(out)@ + s@,
{
    let mut k: usize = 0;
    while k < s.len()
        invariant
            k <= s.len(),
            out@ == old(out)@ + s@.subrange(0, k as int),
        decreases s.len() - k,
    {
        out.push(s[k]);
        k = k + 1;
        assert(out@ =~= old(out)@ + s@.subrange(0, k as int));
    }
    assert(s@.subrange(0, k as int) =~= s@);
}

fn encode_str_into(s: &Vec<u8>, out: &mut Vec<u8>)
    requires
        s@.len() <= u32::MAX,
    ensures
        final(out)@ == old(out)@ + enc_str(s@),
{
    if s.len() == 0 {
        out.push(1);
        assert(final(out)@ =~= old(out)@ + enc_str(s@));
    } else if s.len() < 255 {
        out.push(0);
        out.push(s.len() as u8);
        push_bytes(out, s.as_slice());
        assert(final(out)@ =~= old(out)@ + enc_str(s@));
    } else {
        out.push(0);
        out.push(255);
        push_u32(out, s.len() as u32);
        push_bytes(out, s.as_slice());
        assert(final(out)@ =~= old(out)@ + enc_str(s@));
    }
}

/// Appends the bytes of `v` to `out`.
pub fn encode_into(v: &SettingsValue, out: &mut Vec<u8>)
    requires
        encodable(tree_of(*v)),
    ensures
        final(out)@ == old(out)@ + enc(tree_of(*v)),
    decreases v,
{
    match v {
        SettingsValue::Nothing => {
            out.push(TAG_NOTHING);
            out.push(0);
        },
        SettingsValue::Bool(b) => {
            out.push(TAG_BOOL);
            out.push(0);
            out.push(if *b { 1 } else { 0 });
        },
        SettingsValue::Number(n) => {
            out.push(TAG_NUMBER);
            out.push(0);
            push_u64(out, *n);
        },
        SettingsValue::Text(s) => {
            out.push(TAG_TEXT);
            out.push(0);
            encode_str_into(s, out);
        },
        SettingsValue::List(items) => {
            proof {
                lemma_trees_of(items@);
            }
            out.push(TAG_LIST);
            out.push(0);
            push_u32(out, items.len() as u32);
            let ghost head = out@;
            let mut k: usize = 0;
            while k < items.len()
                invariant
                    k <= items.len(),
                    encodable(tree_of(*v)),
                    *v == SettingsValue::List(*items),
                    tree_of(*v) == Tree::List(trees_of(items@)),
                    trees_of(items@).len() == items@.len(),
                    forall|i: int| 0 <= i < items@.len() ==> trees_of(items@)[i] == tree_of(#[trigger] items@[i]),
                    out@ == head + enc_list(trees_of(items@.subrange(0, k as int))),
                decreases items.len() - k,
            {
                proof {
                    lemma_all_encodable(trees_of(items@), k as int);
                }
                encode_into(&items[k], out);
                proof {
                    let a = items@.subrange(0, k as int);
                    let c = items@.subrange(0, k + 1);
                    assert(c.drop_last() =~= a);
                    assert(trees_of(c).drop_last() =~= trees_of(a));
                }
                k = k + 1;
            }
            assert(items@.subrange(0, k as int) =~= items@);
        },
        SettingsValue::Dictionary(pairs) => {
            proof {
                lemma_pairs_of(pairs@);
            }
            out.push(TAG_DICTIONARY);
            out.push(0);
            push_u32(out, pairs.len() as u32);
            let ghost head = out@;
            let mut k: usize = 0;
            while k < pairs.len()
                invariant
                    k <= pairs.len(),
                    encodable(tree_of(*v)),
                    *v == SettingsValue::Dictionary(*pairs),
                    pairs_of(pairs@).len() == pairs@.len(),
                    forall|i: int| 0 <= i < pairs@.len() ==> pairs_of(pairs@)[i] == (pairs@[i].0@, tree_of(#[trigger] pairs@[i].1)),
                    out@ == head + enc_pairs(pairs_of(pairs@.subrange(0, k as int))),
                decreases pairs.len() - k,
            {
                proof {
                    lemma_all_pairs_encodable(pairs_of(pairs@), k as int);
                    assert(pairs_of(pairs@)[k as int] == (pairs@[k as int].0@, tree_of(pairs@[k as int].1)));
                }
                let ghost mid0 = out@;
                encode_str_into(&pairs[k].0, out);
                encode_into(&pairs[k].1, out);
                proof {
                    let a = pairs@.subrange(0, k as int);
                    let c = pairs@.subrange(0, k + 1);
                    assert(c.drop_last() =~= a);
                    assert(pairs_of(c).drop_last() =~= pairs_of(a));
                    assert(out@ =~= head + enc_pairs(pairs_of(c)));
                }
                k = k + 1;
            }
            assert(pairs@.subrange(0, k as int) =~= pairs@);
        },
    }
    assert(final(out)@ =~= old(out)@ + enc(tree_of(*v)));
}

/// Whether every length in `v` fits its `u32` field.
pub fn is_encodable(v: &SettingsValue) -> (r: bool)
    ensures
        r == encodable(tree_of(*v)),
    decreases v,
{
    match v {
        SettingsValue::Text(s) => s.len() <= 0xffff_ffff,
        SettingsValue::List(items) => {
            proof {
                lemma_trees_of(items@);
            }
            if items.len() > 0xffff_ffff {
                return false;
            }
            let mut k: usize = 0;
            while k < items.len()
                invariant
                    k <= items.len(),
                    *v == SettingsValue::List(*items),
                    all_encodable(trees_of(items@.subrange(0, k as int))),
                decreases items.len() - k,
            {
                let ok = is_encodable(&items[k]);
                proof {
                    let c = items@.subrange(0, k + 1);
                    assert(c.drop_last() =~= items@.subrange(0, k as int));
                    assert(trees_of(c).drop_last() =~= trees_of(items@.subrange(0, k as int)));
                    if !ok {
                        lemma_trees_of(items@);
                        if all_encodable(trees_of(items@)) {
                            lemma_all_encodable(trees_of(items@), k as int);
                        }
                    }
                }
                if !ok {
                    return false;
                }
                k = k + 1;
            }
            assert(items@.subrange(0, k as int) =~= items@);
            true
        },
        SettingsValue::Dictionary(pairs) => {
            proof {
                lemma_pairs_of(pairs@);
            }
            if pairs.len() > 0xffff_ffff {
                return false;
            }
            let mut k: usize = 0;
            while k < pairs.len()
                invariant
                    k <= pairs.len(),
                    *v == SettingsValue::Dictionary(*pairs),
                    all_pairs_encodable(pairs_of(pairs@.subrange(0, k as int))),
                decreases pairs.len() - k,
            {
                let ok = pairs[k].0.len() <= 0xffff_ffff && is_encodable(&pairs[k].1);
                proof {
                    let c = pairs@.subrange(0, k + 1);
                    assert(c.drop_last() =~= pairs@.subrange(0, k as int));
                    assert(pairs_of(c).drop_last() =~= pairs_of(pairs@.subrange(0, k as int)));
                    if !ok {
                        lemma_pairs_of(pairs@);
                        assert(pairs_of(pairs@)[k as int] == (pairs@[k as int].0@, tree_of(pairs@[k as int].1)));
                        if all_pairs_encodable(pairs_of(pairs@)) {
                            lemma_all_pairs_encodable(pairs_of(pairs@), k as int);
                        }
                    }
                }
                if !ok {
                    return false;
                }
                k = k + 1;
            }
            assert(pairs@.subrange(0, k as int) =~= pairs@);
            true
        },
        _ => true,
    }
}

/// The bytes of `v`.
pub fn encode(v: &SettingsValue) -> (r: Vec<u8>)
    requires
        encodable(tree_of(*v)),
    ensures
        r@ == enc(tree_of(*v)),
{
    let mut out: Vec<u8> = Vec::new();
    encode_into(v, &mut out);
    assert(out@ =~= enc(tree_of(*v)));
    out
}

// ---- executable decoding ----

fn read_u32_at(b: &[u8], p: usize) -> (r: u32)
    requires
        p + 4 <= b@.len(),
    ensures
        r == read_u32(b@, p as int),
{
    (b[p] as u32) | ((b[p + 1] as u32) << 8) | ((b[p + 2] as u32) << 16) | ((b[p + 3] as u32) << 24)
}

fn read_u64_at(b: &[u8], p: usize) -> (r: u64)
    requires
        p + 8 <= b@.len(),
    ensures
        r == read_u64(b@, p as int),
{
    (b[p] as u64) | ((b[p + 1] as u64) << 8) | ((b[p + 2] as u64) << 16) | ((b[p + 3] as u64) << 24)
        | ((b[p + 4] as u64) << 32) | ((b[p + 5] as u64) << 40) | ((b[p + 6] as u64) << 48) | ((
    b[p + 7] as u64) << 56)
}

pub fn copy_range(b: &[u8], start: usize, end: usize) -> (r: Vec<u8>)
    requires
        start <= end <= b@.len(),
    ensures
        r@ == b@.subrange(start as int, end as int),
{
    let mut r: Vec<u8> = Vec::new();
    let mut k = start;
    while k < end
        invariant
            start <= k <= end <= b@.len(),
            r@ == b@.subrange(start as int, k as int),
        decreases end - k,
    {
        r.push(b[k]);
        k = k + 1;
        assert(r@ =~= b@.subrange(start as int, k as int));
    }
    r
}

fn decode_str(b: &[u8], p: usize) -> (r: Option<(Vec<u8>, usize)>)
    ensures
        match r {
            Some((s, e)) => dec_str(b@, p as int) == Some((s@, e as int)),
            None => dec_str(b@, p as int) is None,
        },
{
    if p >= b.len() {
        return None;
    }
    if b[p] != 0 {
        let empty: Vec<u8> = Vec::new();
        assert(empty@ =~= Seq::<u8>::empty());
        return Some((empty, p + 1));
    }
    if b.len() - p < 2 {
        return None;
    }
    if b[p + 1] < 255 {
        let n = b[p + 1] as usize;
        if n <= b.len() - p - 2 {
            Some((copy_range(b, p + 2, p + 2 + n), p + 2 + n))
        } else {
            None
        }
    } else if b.len() - p < 6 {
        None
    } else {
        let n = read_u32_at(b, p + 2) as usize;
        if n <= b.len() - p - 6 {
            Some((copy_range(b, p + 6, p + 6 + n), p + 6 + n))
        } else {
            None
        }
    }
}

/// Reads the value at `p`: the value and the position after it.
pub fn decode_at(b: &[u8], p: usize) -> (r: Option<(SettingsValue, usize)>)
    ensures
        match r {
            Some((v, e)) => dec(b@, p as int) == Some((tree_of(v), e as int)),
            None => dec(b@, p as int) is None,
        },
    decreases b.len() - p,
{
    if p > b.len() || b.len() - p < 2 {
        return None;
    }
    let q = p + 2;
    let tag = b[p];
    if tag == TAG_NOTHING {
        Some((SettingsValue::Nothing, q))
    } else if tag == TAG_BOOL {
        if q < b.len() {
            Some((SettingsValue::Bool(b[q] != 0), q + 1))
        } else {
            None
        }
    } else if tag == TAG_NUMBER {
        if b.len() - q >= 8 {
            Some((SettingsValue::Number(read_u64_at(b, q)), q + 8))
        } else {
            None
        }
    } else if tag == TAG_TEXT {
        match decode_str(b, q) {
            Some((s, e)) => Some((SettingsValue::Text(s), e)),
            None => None,
        }
    } else if tag == TAG_LIST {
        if b.len() - q < 4 {
            return None;
        }
        let n = read_u32_at(b, q);
        let mut pos = q + 4;
        let mut items: Vec<SettingsValue> = Vec::new();
        let mut k: u32 = 0;
        assert(trees_of(items@) + dec_list(b@, pos as int, n as nat)->Some_0.0 =~= dec_list(b@, pos as int, n as nat)->Some_0.0);
        while k < n
            invariant
                p < q + 4 <= pos <= b@.len(),
                q == p + 2,
                b@[p as int] == TAG_LIST,
                n == read_u32(b@, q as int),
                k <= n,
                dec_list(b@, q + 4, n as nat) == match dec_list(b@, pos as int, (n - k) as nat) {
                    Some((rest, f)) => Some((trees_of(items@) + rest, f)),
                    None => None,
                },
            decreases n - k,
        {
            match decode_at(b, pos) {
                Some((v, e)) => {
                    if !(pos < e && e <= b.len()) {
                        assert(dec_list(b@, pos as int, (n - k) as nat) is None);
                        return None;
                    }
                    let ghost gv = v;
                    let ghost before = items@;
                    items.push(v);
                    proof {
                        assert(items@.drop_last() =~= before);
                        match dec_list(b@, e as int, (n - k - 1) as nat) {
                            Some((rest, f)) => {
                                assert(trees_of(before) + (seq![tree_of(gv)] + rest) =~= trees_of(items@) + rest);
                            },
                            None => {},
                        }
                    }
                    pos = e;
                    k = k + 1;
                },
                None => {
                    assert(dec_list(b@, pos as int, (n - k) as nat) is None);
                    return None;
                },
            }
        }
        assert(trees_of(items@) + Seq::<Tree>::empty() =~= trees_of(items@));
        Some((SettingsValue::List(items), pos))
    } else if tag == TAG_DICTIONARY {
        if b.len() - q < 4 {
            return None;
        }
        let n = read_u32_at(b, q);
        let mut pos = q + 4;
        let mut pairs: Vec<(Vec<u8>, SettingsValue)> = Vec::new();
        let mut k: u32 = 0;
        assert(pairs_of(pairs@) + dec_pairs(b@, pos as int, n as nat)->Some_0.0 =~= dec_pairs(b@, pos as int, n as nat)->Some_0.0);
        while k < n
            invariant
                p < q + 4 <= pos <= b@.len(),
                q == p + 2,
                b@[p as int] == TAG_DICTIONARY,
                n == read_u32(b@, q as int),
                k <= n,
                dec_pairs(b@, q + 4, n as nat) == match dec_pairs(b@, pos as int, (n - k) as nat) {
                    Some((rest, f)) => Some((pairs_of(pairs@) + rest, f)),
                    None => None,
                },
            decreases n - k,
        {
            let (key, e) = match decode_str(b, pos) {
                Some(found) => found,
                None => {
                    assert(dec_pairs(b@, pos as int, (n - k) as nat) is None);
                    return None;
                },
            };
            if !(pos < e && e <= b.len()) {
                assert(dec_pairs(b@, pos as int, (n - k) as nat) is None);
                return None;
            }
            match decode_at(b, e) {
                Some((v, f)) => {
                    if !(e < f && f <= b.len()) {
                        assert(dec_pairs(b@, pos as int, (n - k) as nat) is None);
                        return None;
                    }
                    let ghost gk = key@;
                    let ghost gv = v;
                    let ghost before = pairs@;
                    pairs.push((key, v));
                    proof {
                        assert(pairs@.drop_last() =~= before);
                        match dec_pairs(b@, f as int, (n - k - 1) as nat) {
                            Some((rest, g)) => {
                                assert(pairs_of(before) + (seq![(gk, tree_of(gv))] + rest) =~= pairs_of(pairs@) + rest);
                            },
                            None => {},
                        }
                    }
                    pos = f;
                    k = k + 1;
                },
                None => {
                    assert(dec_pairs(b@, pos as int, (n - k) as nat) is None);
                    return None;
                },
            }
        }
        assert(pairs_of(pairs@) + Seq::<(Seq<u8>, Tree)>::empty() =~= pairs_of(pairs@));
        Some((SettingsValue::Dictionary(pairs), pos))
    } else {
        None
    }
}

/// Why a settings document could not be read or merged.
#[derive(Clone, Copy, Debug, PartialEq, Eq, Structural)]
pub enum SettingsError {
    /// The bytes are not the encoding of a value.
    DecodeError,
    /// The document has no `startup` dictionary.
    MissingSection,
    /// The overrides are not a dictionary.
    NotADictionary,
}

/// Reads one value from the start of `b`, with the number of bytes it took.
pub fn decode(b: &[u8]) -> (r: Result<(SettingsValue, usize), SettingsError>)
    ensures
        match r {
            Ok((v, n)) => dec(b@, 0) == Some((tree_of(v), n as int)),
            Err(e) => dec(b@, 0) is None && e == SettingsError::DecodeError,
        },
{
    match decode_at(b, 0) {
        Some(found) => Ok(found),
        None => Err(SettingsError::DecodeError),
    }
}

// ---- copying and merging ----

/// A copy of `v`.
pub fn copy_value(v: &SettingsValue) -> (r: SettingsValue)
    ensures
        tree_of(r) == tree_of(*v),
    decreases v,
{
    match v {
        SettingsValue::Nothing => SettingsValue::Nothing,
        SettingsValue::Bool(b) => SettingsValue::Bool(*b),
        SettingsValue::Number(n) => SettingsValue::Number(*n),
        SettingsValue::Text(s) => {
            let c = copy_range(s.as_slice(), 0, s.len());
            assert(c@ =~= s@);
            SettingsValue::Text(c)
        },
        SettingsValue::List(items) => {
            proof {
                lemma_trees_of(items@);
            }
            let mut out: Vec<SettingsValue> = Vec::new();
            let mut k: usize = 0;
            while k < items.len()
                invariant
                    k <= items.len(),
                    *v == SettingsValue::List(*items),
                    tree_of(*v) == Tree::List(trees_of(items@)),
                    trees_of(items@).len() == items@.len(),
                    forall|i: int| 0 <= i < items@.len() ==> trees_of(items@)[i] == tree_of(#[trigger] items@[i]),
                    trees_of(out@) == trees_of(items@.subrange(0, k as int)),
                decreases items.len() - k,
            {
                let c = copy_value(&items[k]);
                let ghost before = out@;
                out.push(c);
                proof {
                    assert(out@.drop_last() =~= before);
                    assert(items@.subrange(0, k + 1).drop_last() =~= items@.subrange(0, k as int));
                }
                k = k + 1;
            }
            assert(items@.subrange(0, k as int) =~= items@);
            SettingsValue::List(out)
        },
        SettingsValue::Dictionary(pairs) => {
            proof {
                lemma_pairs_of(pairs@);
            }
            let mut out: Vec<(Vec<u8>, SettingsValue)> = Vec::new();
            let mut k: usize = 0;
            while k < pairs.len()
                invariant
                    k <= pairs.len(),
                    *v == SettingsValue::Dictionary(*pairs),
                    tree_of(*v) == Tree::Dict(pairs_of(pairs@)),
                    pairs_of(pairs@).len() == pairs@.len(),
                    forall|i: int| 0 <= i < pairs@.len() ==> pairs_of(pairs@)[i] == (pairs@[i].0@, tree_of(#[trigger] pairs@[i].1)),
                    pairs_of(out@) == pairs_of(pairs@.subrange(0, k as int)),
                decreases pairs.len() - k,
            {
                let key = copy_range(pairs[k].0.as_slice(), 0, pairs[k].0.len());
                assert(pairs[k as int].0@.subrange(0, pairs[k as int].0@.len() as int) =~= pairs[k as int].0@);
                let c = copy_value(&pairs[k].1);
                let ghost before = out@;
                out.push((key, c));
                proof {
                    assert(out@.drop_last() =~= before);
                    assert(pairs@.subrange(0, k + 1).drop_last() =~= pairs@.subrange(0, k as int));
                }
                k = k + 1;
            }
            assert(pairs@.subrange(0, k as int) =~= pairs@);
            SettingsValue::Dictionary(out)
        },
    }
}

/// The position of the last pair with key `k`, or -1.
pub open spec fn key_pos(s: Seq<(Seq<u8>, Tree)>, k: Seq<u8>) -> int
    decreases s.len(),
{
    if s.len() == 0 {
        -1
    } else if s.last().0 == k {
        s.len() - 1
    } else {
        key_pos(s.drop_last(), k)
    }
}

/// The pairs with the value of key `k` replaced by `v`, in place; or with
/// the pair added at the end when no pair has that key.
pub open spec fn dict_set(s: Seq<(Seq<u8>, Tree)>, k: Seq<u8>, v: Tree) -> Seq<(Seq<u8>, Tree)> {
    if key_pos(s, k) >= 0 {
        s.update(key_pos(s, k), (k, v))
    } else {
        s.push((k, v))
    }
}

/// The pairs after setting each override in turn.
pub open spec fn merge_pairs(s: Seq<(Seq<u8>, Tree)>, o: Seq<(Seq<u8>, Tree)>) -> Seq<(Seq<u8>, Tree)>
    decreases o.len(),
{
    if o.len() == 0 {
        s
    } else {
        dict_set(merge_pairs(s, o.drop_last()), o.last().0, o.last().1)
    }
}

proof fn lemma_key_pos(s: Seq<(Seq<u8>, Tree)>, k: Seq<u8>)
    ensures
        -1 <= key_pos(s, k) < s.len(),
        key_pos(s, k) >= 0 ==> s[key_pos(s, k)].0 == k,
        forall|j: int| key_pos(s, k) < j < s.len() ==> (#[trigger] s[j]).0 != k,
    decreases s.len(),
{
    if s.len() > 0 && s.last().0 != k {
        lemma_key_pos(s.drop_last(), k);
        assert forall|j: int| key_pos(s, k) < j < s.len() implies (#[trigger] s[j]).0 != k by {
            if j < s.len() - 1 {
                assert(s.drop_last()[j] == s[j]);
            }
        }
    }
}

/// The name of the settings group that overrides are merged into.
pub open spec fn startup_key() -> Seq<u8> {
    seq![115u8, 116u8, 97u8, 114u8, 116u8, 117u8, 112u8]
}

/// The position of the last pair of `pairs` whose key is `key`.
fn find_key(pairs: &Vec<(Vec<u8>, SettingsValue)>, key: &[u8]) -> (r: Option<usize>)
    ensures
        match r {
            Some(i) => key_pos(pairs_of(pairs@), key@) == i as int,
            None => key_pos(pairs_of(pairs@), key@) == -1,
        },
{
    proof {
        lemma_pairs_of(pairs@);
        lemma_key_pos(pairs_of(pairs@), key@);
    }
    let ghost s = pairs_of(pairs@);
    let mut k = pairs.len();
    while k > 0
        invariant
            k <= pairs.len(),
            s == pairs_of(pairs@),
            s.len() == pairs@.len(),
            forall|i: int| 0 <= i < pairs@.len() ==> s[i] == (pairs@[i].0@, tree_of(#[trigger] pairs@[i].1)),
            forall|j: int| k <= j < s.len() ==> (#[trigger] s[j]).0 != key@,
        decreases k,
    {
        assert(s[k - 1] == (pairs@[k - 1].0@, tree_of(pairs@[k - 1].1)));
        if crate::directory::bytes_eq(pairs[k - 1].0.as_slice(), key) {
            proof {
                lemma_key_pos(s, key@);
                let kp = key_pos(s, key@);
                if kp > k - 1 {
                    assert(s[kp].0 != key@);
                }
                if kp < k - 1 {
                    assert(s[k - 1].0 != key@);
                }
            }
            return Some(k - 1);
        }
        assert(s[k - 1].0 != key@);
        k = k - 1;
    }
    proof {
        lemma_key_pos(s, key@);
        let kp = key_pos(s, key@);
        if kp >= 0 {
            assert(s[kp].0 != key@);
        }
    }
    None
}

/// Sets key `key` of `pairs` to `value` as `dict_set` says.
pub fn dict_set_exec(pairs: &mut Vec<(Vec<u8>, SettingsValue)>, key: Vec<u8>, value: SettingsValue)
    ensures
        pairs_of(final(pairs)@) == dict_set(pairs_of(old(pairs)@), key@, tree_of(value)),
{
    proof {
        lemma_pairs_of(pairs@);
        lemma_key_pos(pairs_of(pairs@), key@);
    }
    let ghost s = pairs_of(pairs@);
    let ghost kv = key@;
    let ghost tv = tree_of(value);
    match find_key(pairs, key.as_slice()) {
        Some(i) => {
            let ghost old_p = pairs@;
            pairs[i] = (key, value);
            proof {
                lemma_pairs_of(pairs@);
                assert forall|j: int| 0 <= j < s.len() implies #[trigger] pairs_of(pairs@)[j] == s.update(i as int, (kv, tv))[j] by {
                    assert(pairs_of(pairs@)[j] == (pairs@[j].0@, tree_of(pairs@[j].1)));
                    if j != i {
                        assert(s[j] == (old_p[j].0@, tree_of(old_p[j].1)));
                    }
                }
                assert(pairs_of(pairs@) =~= s.update(i as int, (kv, tv)));
            }
        },
        None => {
            let ghost before = pairs@;
            pairs.push((key, value));
            assert(pairs@.drop_last() =~= before);
        },
    }
}

/// Sets every pair of `overrides` in `target`, in order.
pub fn merge_pairs_exec(target: &mut Vec<(Vec<u8>, SettingsValue)>, overrides: &Vec<(Vec<u8>, SettingsValue)>)
    ensures
        pairs_of(final(target)@) == merge_pairs(pairs_of(old(target)@), pairs_of(overrides@)),
{
    proof {
        lemma_pairs_of(overrides@);
    }
    let ghost start = pairs_of(target@);
    let ghost o = pairs_of(overrides@);
    let mut k: usize = 0;
    assert(o.subrange(0, 0) =~= Seq::<(Seq<u8>, Tree)>::empty());
    while k < overrides.len()
        invariant
            k <= overrides.len(),
            o == pairs_of(overrides@),
            o.len() == overrides@.len(),
            forall|i: int| 0 <= i < overrides@.len() ==> o[i] == (overrides@[i].0@, tree_of(#[trigger] overrides@[i].1)),
            pairs_of(target@) == merge_pairs(start, o.subrange(0, k as int)),
        decreases overrides.len() - k,
    {
        let key = copy_range(overrides[k].0.as_slice(), 0, overrides[k].0.len());
        assert(overrides[k as int].0@.subrange(0, overrides[k as int].0@.len() as int) =~= overrides[k as int].0@);
        let value = copy_value(&overrides[k].1);
        dict_set_exec(target, key, value);
        assert(o.subrange(0, k + 1).drop_last() =~= o.subrange(0, k as int));
        k = k + 1;
    }
    assert(o.subrange(0, k as int) =~= o);
}

/// The document `s` after merging the dictionary `o` into its `startup`
/// dictionary, or why that cannot be done.
pub open spec fn merged_document(s: Seq<(Seq<u8>, Tree)>, o: Tree) -> Result<Tree, SettingsError> {
    let i = key_pos(s, startup_key());
    if i < 0 || !(s[i].1 is Dict) {
        Err(SettingsError::MissingSection)
    } else if !(o is Dict) {
        Err(SettingsError::NotADictionary)
    } else {
        Ok(Tree::Dict(s.update(i, (startup_key(), Tree::Dict(merge_pairs(s[i].1->Dict_0, o->Dict_0))))))
    }
}

/// A settings document: its top-level dictionary.
#[derive(Debug)]
pub struct ModSettings {
    pub settings: Vec<(Vec<u8>, SettingsValue)>,
}

impl ModSettings {
    pub open spec fn tree(&self) -> Tree {
        Tree::Dict(pairs_of(self.settings@))
    }

    /// Reads a document: a dictionary taking all of `b`.
    pub fn from_bytes(b: &[u8]) -> (r: Result<ModSettings, SettingsError>)
        ensures
            match r {
                Ok(m) => dec(b@, 0) == Some((m.tree(), b@.len() as int)),
                Err(e) => e == SettingsError::DecodeError && !(dec(b@, 0) matches Some((Tree::Dict(_), n)) && n == b@.len()),
            },
    {
        match decode_at(b, 0) {
            Some((SettingsValue::Dictionary(pairs), n)) => {
                if n == b.len() {
                    Ok(ModSettings { settings: pairs })
                } else {
                    Err(SettingsError::DecodeError)
                }
            },
            _ => Err(SettingsError::DecodeError),
        }
    }

    /// The bytes of the document.
    pub fn to_bytes(&self) -> (r: Vec<u8>)
        requires
            encodable(self.tree()),
        ensures
            r@ == enc(self.tree()),
    {
        let mut out: Vec<u8> = Vec::new();
        proof {
            lemma_pairs_of(self.settings@);
        }
        out.push(TAG_DICTIONARY);
        out.push(0);
        push_u32(&mut out, self.settings.len() as u32);
        let ghost head = out@;
        let ghost v = SettingsValue::Dictionary(self.settings);
        let pairs = &self.settings;
        let mut k: usize = 0;
        while k < pairs.len()
            invariant
                k <= pairs.len(),
                encodable(tree_of(v)),
                v == SettingsValue::Dictionary(*pairs),
                pairs_of(pairs@).len() == pairs@.len(),
                forall|i: int| 0 <= i < pairs@.len() ==> pairs_of(pairs@)[i] == (pairs@[i].0@, tree_of(#[trigger] pairs@[i].1)),
                out@ == head + enc_pairs(pairs_of(pairs@.subrange(0, k as int))),
            decreases pairs.len() - k,
        {
            proof {
                lemma_all_pairs_encodable(pairs_of(pairs@), k as int);
                assert(pairs_of(pairs@)[k as int] == (pairs@[k as int].0@, tree_of(pairs@[k as int].1)));
            }
            encode_str_into(&pairs[k].0, &mut out);
            encode_into(&pairs[k].1, &mut out);
            proof {
                let a = pairs@.subrange(0, k as int);
                let c = pairs@.subrange(0, k + 1);
                assert(c.drop_last() =~= a);
                assert(pairs_of(c).drop_last() =~= pairs_of(a));
                assert(out@ =~= head + enc_pairs(pairs_of(c)));
            }
            k = k + 1;
        }
        assert(pairs@.subrange(0, k as int) =~= pairs@);
        assert(out@ =~= enc(self.tree()));
        out
    }

    /// Sets each key of the dictionary `overrides` in the `startup`
    /// dictionary: a key present there has its value replaced in place, a new
    /// key is added at the end, other keys stay. The document is unchanged on
    /// an error.
    pub fn merge_startup(&mut self, overrides: &SettingsValue) -> (r: Result<(), SettingsError>)
        ensures
            match merged_document(old(self).tree()->Dict_0, tree_of(*overrides)) {
                Ok(t) => r is Ok && final(self).tree() == t,
                Err(e) => r == Err::<(), SettingsError>(e) && final(self).tree() == old(self).tree(),
            },
    {
        proof {
            lemma_pairs_of(self.settings@);
            lemma_key_pos(pairs_of(self.settings@), startup_key());
        }
        let ghost s = pairs_of(self.settings@);
        let ghost old_settings = self.settings@;
        let startup: [u8; 7] = [115, 116, 97, 114, 116, 117, 112];
        assert(startup@ =~= startup_key());
        let i = match find_key(&self.settings, startup.as_slice()) {
            Some(i) => i,
            None => {
                return Err(SettingsError::MissingSection);
            },
        };
        let (key, value) = self.settings.remove(i);
        proof {
            assert(s[i as int] == (old_settings[i as int].0@, tree_of(old_settings[i as int].1)));
            assert(key@ == startup_key());
        }
        match value {
            SettingsValue::Dictionary(mut group) => {
                match overrides {
                    SettingsValue::Dictionary(o) => {
                        merge_pairs_exec(&mut group, o);
                        let ghost merged = tree_of(SettingsValue::Dictionary(group));
                        self.settings.insert(i, (key, SettingsValue::Dictionary(group)));
                        proof {
                            lemma_pairs_of(self.settings@);
                            assert(self.settings@ =~= old_settings.update(i as int, self.settings@[i as int]));
                            assert forall|j: int| 0 <= j < s.len() implies #[trigger] pairs_of(self.settings@)[j] == s.update(i as int, (startup_key(), merged))[j] by {
                                assert(pairs_of(self.settings@)[j] == (self.settings@[j].0@, tree_of(self.settings@[j].1)));
                                if j != i {
                                    assert(s[j] == (old_settings[j].0@, tree_of(old_settings[j].1)));
                                }
                            }
                            assert(pairs_of(self.settings@) =~= s.update(i as int, (startup_key(), merged)));
                        }
                        Ok(())
                    },
                    _ => {
                        self.settings.insert(i, (key, SettingsValue::Dictionary(group)));
                        proof {
                            lemma_pairs_of(self.settings@);
                            assert(self.settings@ =~= old_settings);
                        }
                        Err(SettingsError::NotADictionary)
                    },
                }
            },
            other => {
                self.settings.insert(i, (key, other));
                proof {
                    lemma_pairs_of(self.settings@);
                    assert(self.settings@ =~= old_settings);
                }
                Err(SettingsError::MissingSection)
            },
        }
    }
}

} // verus!
