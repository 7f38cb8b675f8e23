//! Parsing of D-Bus signature strings.
//!
//! The grammar:
//!
//! ```text
//! sig    := basic | array | dict | struct | maybe
//! basic  := 'y'|'b'|'n'|'q'|'i'|'u'|'x'|'t'|'d'|'s'|'g'|'o'|'v'|'h'
//! array  := 'a' sig
//! dict   := 'a' '{' sig sig '}'
//! struct := '(' sig+ ')'
//! maybe  := 'm' sig
//! top    := empty | sig+
//! ```
//!
//! An empty input stands for `Unit`; a single signature is returned
//! unwrapped; two or more top-level signatures become a `Structure`.

use vstd::prelude::*;

use crate::signature::{fields_bytes, str_bytes, str_chars, views_of, SigTree, Signature};
use crate::signature::lemma_views_of;

verus! {

/// The error returned when a signature string does not follow the grammar.
#[derive(Clone, Copy, Debug, PartialEq, Eq, Structural)]
pub enum SignatureError {
    /// The bytes are not a valid signature.
    InvalidSignature,
}

/// The signature tree denoted by a single basic-type code, if any.
pub open spec fn basic_tree_of(b: u8) -> Option<SigTree> {
    if b == 121 {  // 'y'
        Some(SigTree::U8)
    } else if b == 98 {  // 'b'
        Some(SigTree::Bool)
    } else if b == 110 {  // 'n'
        Some(SigTree::I16)
    } else if b == 113 {  // 'q'
        Some(SigTree::U16)
    } else if b == 105 {  // 'i'
        Some(SigTree::I32)
    } else if b == 117 {  // 'u'
        Some(SigTree::U32)
    } else if b == 120 {  // 'x'
        Some(SigTree::I64)
    } else if b == 116 {  // 't'
        Some(SigTree::U64)
    } else if b == 100 {  // 'd'
        Some(SigTree::F64)
    } else if b == 115 {  // 's'
        Some(SigTree::Str)
    } else if b == 103 {  // 'g'
        Some(SigTree::Signature)
    } else if b == 111 {  // 'o'
        Some(SigTree::ObjectPath)
    } else if b == 118 {  // 'v'
        Some(SigTree::Variant)
    } else if b == 104 {  // 'h'
        Some(SigTree::Fd)
    } else {
        None
    }
}

/// Parse one signature of the grammar starting at `pos`. On success the
/// result carries the parsed tree and the position just past it.
pub open spec fn parse_one_at(s: Seq<u8>, pos: int) -> Option<(SigTree, int)>
    decreases s.len() - pos, 0int,
{
    if !(0 <= pos < s.len()) {
        None
    } else {
        let b = s[pos];
        if basic_tree_of(b) is Some {
            Some((basic_tree_of(b)->Some_0, pos + 1))
        } else if b == 97 {  // 'a'
            if pos + 1 < s.len() && s[pos + 1] == 123 {  // '{'
                match parse_one_at(s, pos + 2) {
                    Some((key, kend)) => if pos + 2 < kend && kend <= s.len() {
                        match parse_one_at(s, kend) {
                            Some((value, vend)) => if vend < s.len() && s[vend] == 125 {  // '}'
                                Some(
                                    (
                                        SigTree::Dict {
                                            key: Box::new(key),
                                            value: Box::new(value),
                                        },
                                        vend + 1,
                                    ),
                                )
                            } else {
                                None
                            },
                            None => None,
                        }
                    } else {
                        None
                    },
                    None => None,
                }
            } else {
                match parse_one_at(s, pos + 1) {
                    Some((child, end)) => Some((SigTree::Array(Box::new(child)), end)),
                    None => None,
                }
            }
        } else if b == 40 {  // '('
            let (fields, end) = parse_list_at(s, pos + 1);
            if fields.len() >= 1 && end < s.len() && s[end] == 41 {  // ')'
                Some((SigTree::Structure(fields), end + 1))
            } else {
                None
            }
        } else if b == 109 {  // 'm'
            match parse_one_at(s, pos + 1) {
                Some((child, end)) => Some((SigTree::Maybe(Box::new(child)), end)),
                None => None,
            }
        } else {
            None
        }
    }
}

/// Parse as many signatures as possible starting at `pos`. The result is
/// the parsed trees, possibly none, and the position just past them.
pub open spec fn parse_list_at(s: Seq<u8>, pos: int) -> (Seq<SigTree>, int)
    decreases s.len() - pos, 1int,
{
    if !(0 <= pos <= s.len()) {
        (Seq::empty(), pos)
    } else {
        match parse_one_at(s, pos) {
            None => (Seq::empty(), pos),
            Some((t, end)) => if pos < end && end <= s.len() {
                let (rest, rend) = parse_list_at(s, end);
                (seq![t] + rest, rend)
            } else {
                (Seq::empty(), pos)
            },
        }
    }
}

/// Parse a whole signature string: empty input stands for `Unit`, a single
/// signature is returned unwrapped, and two or more become a `Structure`.
/// The input must be consumed entirely.
pub open spec fn parse_top(s: Seq<u8>) -> Option<SigTree> {
    if s.len() == 0 {
        Some(SigTree::Unit)
    } else {
        let (fields, end) = parse_list_at(s, 0);
        if end == s.len() && fields.len() >= 1 {
            if fields.len() == 1 {
                Some(fields[0])
            } else {
                Some(SigTree::Structure(fields))
            }
        } else {
            None
        }
    }
}

/// Parse one signature starting at `pos`, building the tree.
fn parse_one(bytes: &[u8], pos: usize) -> (r: Option<(Signature, usize)>)
    requires
        pos <= bytes@.len(),
    ensures
        match r {
            Some(p) => parse_one_at(bytes@, pos as int) == Some((p.0@, p.1 as int)) && pos < p.1
                <= bytes@.len(),
            None => parse_one_at(bytes@, pos as int) is None,
        },
    decreases bytes@.len() - pos, 0int,
{
    if pos >= bytes.len() {
        return None;
    }
    let b = bytes[pos];
    match b {
        121 => Some((Signature::U8, pos + 1)),
        98 => Some((Signature::Bool, pos + 1)),
        110 => Some((Signature::I16, pos + 1)),
        113 => Some((Signature::U16, pos + 1)),
        105 => Some((Signature::I32, pos + 1)),
        117 => Some((Signature::U32, pos + 1)),
        120 => Some((Signature::I64, pos + 1)),
        116 => Some((Signature::U64, pos + 1)),
        100 => Some((Signature::F64, pos + 1)),
        115 => Some((Signature::Str, pos + 1)),
        103 => Some((Signature::Signature, pos + 1)),
        111 => Some((Signature::ObjectPath, pos + 1)),
        118 => Some((Signature::Variant, pos + 1)),
        104 => Some((Signature::Fd, pos + 1)),
        97 => {
            if pos + 1 < bytes.len() && bytes[pos + 1] == 123 {
                let (key, kend) = match parse_one(bytes, pos + 2) {
                    Some(p) => p,
                    None => {
                        return None;
                    },
                };
                let (value, vend) = match parse_one(bytes, kend) {
                    Some(p) => p,
                    None => {
                        return None;
                    },
                };
                if vend < bytes.len() && bytes[vend] == 125 {
                    Some(
                        (
                            Signature::Dict { key: Box::new(key), value: Box::new(value) },
                            vend + 1,
                        ),
                    )
                } else {
                    None
                }
            } else {
                match parse_one(bytes, pos + 1) {
                    Some((child, end)) => Some((Signature::Array(Box::new(child)), end)),
                    None => None,
                }
            }
        },
        40 => {
            let (fields, end) = parse_list(bytes, pos + 1);
            if fields.len() >= 1 && end < bytes.len() && bytes[end] == 41 {
                proof {
                    lemma_views_of(fields@);
                }
                Some((Signature::Structure(fields), end + 1))
            } else {
                None
            }
        },
        109 => {
            match parse_one(bytes, pos + 1) {
                Some((child, end)) => Some((Signature::Maybe(Box::new(child)), end)),
                None => None,
            }
        },
        _ => None,
    }
}

/// Parse as many signatures as possible starting at `pos`, building the
/// trees.
fn parse_list(bytes: &[u8], pos: usize) -> (r: (Vec<Signature>, usize))
    requires
        pos <= bytes@.len(),
    ensures
        views_of(r.0@) == parse_list_at(bytes@, pos as int).0,
        r.1 as int == parse_list_at(bytes@, pos as int).1,
        pos <= r.1 <= bytes@.len(),
    decreases bytes@.len() - pos, 1int,
{
    match parse_one(bytes, pos) {
        None => (Vec::new(), pos),
        Some((t, end)) => {
            let ghost tv = t@;
            let (mut rest, rend) = parse_list(bytes, end);
            let ghost rest0 = rest@;
            rest.insert(0, t);
            proof {
                assert(rest@ =~= seq![t] + rest0);
                assert(rest@.drop_first() =~= rest0);
                assert(views_of(rest@) =~= seq![tv] + views_of(rest0));
            }
            (rest, rend)
        },
    }
}

impl Signature {
    /// Parse a signature from a byte slice per the D-Bus grammar: the
    /// result is the tree that `parse_top` denotes for these bytes, and an
    /// `InvalidSignature` error exactly when the bytes follow no such tree.
    pub fn from_bytes(bytes: &[u8]) -> (r: Result<Signature, SignatureError>)
        ensures
            r is Ok <==> parse_top(bytes@) is Some,
            r matches Ok(sig) ==> parse_top(bytes@) == Some(sig@),
            r matches Err(e) ==> e == SignatureError::InvalidSignature,
    {
        if bytes.len() == 0 {
            return Ok(Signature::Unit);
        }
        let (mut fields, end) = parse_list(bytes, 0);
        proof {
            lemma_views_of(fields@);
        }
        if end == bytes.len() && fields.len() >= 1 {
            if fields.len() == 1 {
                let first = fields.remove(0);
                Ok(first)
            } else {
                Ok(Signature::Structure(fields))
            }
        } else {
            Err(SignatureError::InvalidSignature)
        }
    }
}

/// Check one signature of the grammar starting at `pos`, without building
/// the tree. On success the result is the position just past it.
fn check_one(bytes: &[u8], pos: usize) -> (r: Option<usize>)
    requires
        pos <= bytes@.len(),
    ensures
        match r {
            Some(end) => parse_one_at(bytes@, pos as int) matches Some(p) && p.1 == end as int
                && pos < end <= bytes@.len(),
            None => parse_one_at(bytes@, pos as int) is None,
        },
    decreases bytes@.len() - pos, 0int,
{
    if pos >= bytes.len() {
        return None;
    }
    let b = bytes[pos];
    match b {
        121 | 98 | 110 | 113 | 105 | 117 | 120 | 116 | 100 | 115 | 103 | 111 | 118 | 104 => Some(
            pos + 1,
        ),
        97 => {
            if pos + 1 < bytes.len() && bytes[pos + 1] == 123 {
                let kend = match check_one(bytes, pos + 2) {
                    Some(p) => p,
                    None => {
                        return None;
                    },
                };
                let vend = match check_one(bytes, kend) {
                    Some(p) => p,
                    None => {
                        return None;
                    },
                };
                if vend < bytes.len() && bytes[vend] == 125 {
                    Some(vend + 1)
                } else {
                    None
                }
            } else {
                check_one(bytes, pos + 1)
            }
        },
        40 => {
            let (count, end) = check_list(bytes, pos + 1);
            if count >= 1 && end < bytes.len() && bytes[end] == 41 {
                Some(end + 1)
            } else {
                None
            }
        },
        109 => check_one(bytes, pos + 1),
        _ => None,
    }
}

/// Check as many signatures as possible starting at `pos`, without building
/// the trees. The result is how many there are and the position just past
/// them.
fn check_list(bytes: &[u8], pos: usize) -> (r: (usize, usize))
    requires
        pos <= bytes@.len(),
    ensures
        r.0 as int == parse_list_at(bytes@, pos as int).0.len(),
        r.1 as int == parse_list_at(bytes@, pos as int).1,
        pos <= r.1 <= bytes@.len(),
        r.0 as int <= r.1 as int - pos,
    decreases bytes@.len() - pos, 1int,
{
    match check_one(bytes, pos) {
        None => (0, pos),
        Some(end) => {
            let (count, rend) = check_list(bytes, end);
            (count + 1, rend)
        },
    }
}

/// What one parsed signature prints back to: the canonical form of the
/// tree parsed at `pos` is exactly the consumed bytes.
pub proof fn lemma_parse_one_prints(s: Seq<u8>, pos: int)
    requires
        parse_one_at(s, pos) is Some,
    ensures
        ({
            let (t, end) = parse_one_at(s, pos)->Some_0;
            &&& pos < end <= s.len()
            &&& str_bytes(t, true) == s.subrange(pos, end)
        }),
    decreases s.len() - pos, 0int,
{
    let (t, end) = parse_one_at(s, pos)->Some_0;
    let b = s[pos];
    if basic_tree_of(b) is Some {
        assert(str_bytes(t, true) =~= s.subrange(pos, end));
    } else if b == 97 {
        if pos + 1 < s.len() && s[pos + 1] == 123 {
            let (key, kend) = parse_one_at(s, pos + 2)->Some_0;
            lemma_parse_one_prints(s, pos + 2);
            let (value, vend) = parse_one_at(s, kend)->Some_0;
            lemma_parse_one_prints(s, kend);
            assert(str_bytes(t, true) =~= s.subrange(pos, end));
        } else {
            lemma_parse_one_prints(s, pos + 1);
            assert(str_bytes(t, true) =~= s.subrange(pos, end));
        }
    } else if b == 40 {
        lemma_parse_list_prints(s, pos + 1);
        assert(str_bytes(t, true) =~= s.subrange(pos, end));
    } else {
        lemma_parse_one_prints(s, pos + 1);
        assert(str_bytes(t, true) =~= s.subrange(pos, end));
    }
}

/// What a parsed run of signatures prints back to: the concatenated
/// canonical forms of the trees parsed at `pos` are exactly the consumed
/// bytes.
pub proof fn lemma_parse_list_prints(s: Seq<u8>, pos: int)
    requires
        0 <= pos <= s.len(),
    ensures
        ({
            let (fields, end) = parse_list_at(s, pos);
            &&& pos <= end <= s.len()
            &&& fields_bytes(fields) == s.subrange(pos, end)
        }),
    decreases s.len() - pos, 1int,
{
    let (fields, end) = parse_list_at(s, pos);
    match parse_one_at(s, pos) {
        None => {
            assert(fields_bytes(fields) =~= s.subrange(pos, pos));
        },
        Some((t, tend)) => {
            lemma_parse_one_prints(s, pos);
            lemma_parse_list_prints(s, tend);
            let (rest, rend) = parse_list_at(s, tend);
            assert(fields == seq![t] + rest);
            assert(fields.drop_first() =~= rest);
            assert(fields[0] == t);
            assert(fields_bytes(fields) == str_bytes(t, true)
                + fields_bytes(rest));
            assert(fields_bytes(fields) =~= s.subrange(pos, end));
        },
    }
}

/// Whether a signature tree may stand inside a container: `Unit` may not,
/// and a structure must have at least one field.
pub open spec fn wf_node(t: SigTree) -> bool
    decreases t, 0int,
{
    match t {
        SigTree::Unit => false,
        SigTree::Array(child) => wf_node(*child),
        SigTree::Dict { key, value } => wf_node(*key) && wf_node(*value),
        SigTree::Structure(fields) => fields.len() >= 1 && wf_fields(fields),
        SigTree::Maybe(child) => wf_node(*child),
        _ => true,
    }
}

/// Whether every one of the given fields may stand inside a container.
pub open spec fn wf_fields(fields: Seq<SigTree>) -> bool
    decreases fields, 1int,
{
    if fields.len() == 0 {
        true
    } else {
        wf_node(fields[0]) && wf_fields(fields.drop_first())
    }
}

/// A parsed signature is well formed: `Unit` never occurs inside it, and
/// every structure in it has at least one field.
pub proof fn lemma_parse_one_wf(s: Seq<u8>, pos: int)
    requires
        parse_one_at(s, pos) is Some,
    ensures
        wf_node(parse_one_at(s, pos)->Some_0.0),
    decreases s.len() - pos, 0int,
{
    let b = s[pos];
    if basic_tree_of(b) is Some {
    } else if b == 97 {
        if pos + 1 < s.len() && s[pos + 1] == 123 {
            let (key, kend) = parse_one_at(s, pos + 2)->Some_0;
            lemma_parse_one_wf(s, pos + 2);
            lemma_parse_one_wf(s, kend);
        } else {
            lemma_parse_one_wf(s, pos + 1);
        }
    } else if b == 40 {
        lemma_parse_list_wf(s, pos + 1);
    } else {
        lemma_parse_one_wf(s, pos + 1);
    }
}

/// Every signature of a parsed run is well formed.
pub proof fn lemma_parse_list_wf(s: Seq<u8>, pos: int)
    requires
        0 <= pos <= s.len(),
    ensures
        wf_fields(parse_list_at(s, pos).0),
    decreases s.len() - pos, 1int,
{
    let (fields, end) = parse_list_at(s, pos);
    match parse_one_at(s, pos) {
        None => {},
        Some((t, tend)) => {
            lemma_parse_one_wf(s, pos);
            lemma_parse_one_prints(s, pos);
            lemma_parse_list_wf(s, tend);
            let (rest, _) = parse_list_at(s, tend);
            assert(fields.drop_first() =~= rest);
            assert(fields[0] == t);
        },
    }
}

/// A whole parsed signature is `Unit`, for the empty string, or well
/// formed: `Unit` never occurs inside a container, and every structure has
/// at least one field.
pub proof fn lemma_parse_top_well_formed(s: Seq<u8>)
    requires
        parse_top(s) is Some,
    ensures
        parse_top(s)->Some_0 == SigTree::Unit ==> s.len() == 0,
        s.len() > 0 ==> wf_node(parse_top(s)->Some_0),
{
    if s.len() > 0 {
        lemma_parse_list_wf(s, 0);
        let (fields, _) = parse_list_at(s, 0);
        if fields.len() == 1 {
            assert(wf_node(fields[0]));
        }
    }
}

/// The first byte of the canonical form of a signature that may stand
/// inside a container: a type code, never a closing brace, a closing
/// parenthesis, or a nul.
proof fn lemma_wf_head(t: SigTree)
    requires
        wf_node(t),
    ensures
        str_bytes(t, true).len() >= 1,
        str_bytes(t, true)[0] != 123,
        str_bytes(t, true)[0] != 41,
        str_bytes(t, true)[0] != 125,
        str_bytes(t, true)[0] != 0,
{
}

/// A window into a window: the bytes from `a` to `b` of a matched span.
proof fn lemma_subrange_shift(s: Seq<u8>, pos: int, w: Seq<u8>, a: int, b: int)
    requires
        0 <= pos,
        pos + w.len() <= s.len(),
        s.subrange(pos, pos + w.len()) == w,
        0 <= a <= b <= w.len(),
    ensures
        s.subrange(pos + a, pos + b) == w.subrange(a, b),
{
    assert forall|j: int| 0 <= j < b - a implies s.subrange(pos + a, pos + b)[j] == w.subrange(
        a,
        b,
    )[j] by {
        assert(s.subrange(pos + a, pos + b)[j] == s[pos + a + j]);
        assert(s.subrange(pos, pos + w.len())[a + j] == s[pos + (a + j)]);
        assert(pos + a + j == pos + (a + j));
    }
    assert(s.subrange(pos + a, pos + b) =~= w.subrange(a, b));
}

/// The canonical form of a well-formed signature parses back to it,
/// whatever follows it in the buffer.
pub proof fn lemma_print_parse_one(t: SigTree, s: Seq<u8>, pos: int)
    requires
        wf_node(t),
        0 <= pos,
        pos + str_bytes(t, true).len() <= s.len(),
        s.subrange(pos, pos + str_bytes(t, true).len()) == str_bytes(t, true),
    ensures
        parse_one_at(s, pos) == Some((t, pos + str_bytes(t, true).len())),
    decreases t, 0int,
{
    lemma_wf_head(t);
    let w = str_bytes(t, true);
    assert forall|i: int| 0 <= i < w.len() implies s[pos + i] == w[i] by {
        assert(s.subrange(pos, pos + w.len())[i] == s[pos + i]);
    }
    match t {
        SigTree::Array(child) => {
            let c = str_bytes(*child, true);
            lemma_wf_head(*child);
            lemma_subrange_shift(s, pos, w, 1, 1 + c.len() as int);
            assert(w.subrange(1, 1 + c.len() as int) =~= c);
            assert(w[1] == c[0]);
            assert(s[pos + 1] == w[1]);
            assert(s[pos + 1] != 123);
            lemma_print_parse_one(*child, s, pos + 1);
            assert(s[pos] == 97);
            assert(parse_one_at(s, pos) == Some((SigTree::Array(Box::new(*child)), pos + 1
                + c.len())));
        },
        SigTree::Dict { key, value } => {
            let k = str_bytes(*key, true);
            let v = str_bytes(*value, true);
            assert(w =~= seq![97u8, 123u8] + k + v + seq![125u8]);
            assert(s[pos] == w[0] && s[pos + 1] == w[1]);
            lemma_subrange_shift(s, pos, w, 2, 2 + k.len() as int);
            assert(w.subrange(2, 2 + k.len() as int) =~= k);
            lemma_print_parse_one(*key, s, pos + 2);
            lemma_subrange_shift(s, pos, w, 2 + k.len() as int, 2 + k.len() + v.len() as int);
            assert(w.subrange(2 + k.len() as int, 2 + k.len() + v.len() as int) =~= v);
            lemma_print_parse_one(*value, s, pos + 2 + k.len());
            assert(s[pos + (2 + k.len() + v.len())] == w[2 + k.len() + v.len() as int]);
            assert(w[2 + k.len() + v.len() as int] == 125);
        },
        SigTree::Structure(fields) => {
            let fb = fields_bytes(fields);
            lemma_subrange_shift(s, pos, w, 1, 1 + fb.len() as int);
            assert(w.subrange(1, 1 + fb.len() as int) =~= fb);
            let fend = pos + 1 + fb.len();
            assert(s[pos + (1 + fb.len())] == w[1 + fb.len() as int]);
            assert(w[1 + fb.len() as int] == 41);
            assert(parse_one_at(s, fend) is None);
            lemma_print_parse_list(fields, s, pos + 1);
            assert(s[pos] == w[0]);
            assert(parse_one_at(s, pos) == Some((t, pos + w.len())));
        },
        SigTree::Maybe(child) => {
            let c = str_bytes(*child, true);
            lemma_subrange_shift(s, pos, w, 1, 1 + c.len() as int);
            assert(w.subrange(1, 1 + c.len() as int) =~= c);
            assert(s[pos] == w[0]);
            lemma_print_parse_one(*child, s, pos + 1);
            assert(parse_one_at(s, pos) == Some((t, pos + w.len())));
        },
        _ => {
            assert(s[pos] == w[0]);
            assert(basic_tree_of(w[0]) == Some(t));
            assert(parse_one_at(s, pos) == Some((t, pos + w.len())));
        },
    }
}

/// The concatenated canonical forms of well-formed fields parse back to
/// them, when whatever follows starts no signature.
pub proof fn lemma_print_parse_list(fields: Seq<SigTree>, s: Seq<u8>, pos: int)
    requires
        wf_fields(fields),
        0 <= pos,
        pos + fields_bytes(fields).len() <= s.len(),
        s.subrange(pos, pos + fields_bytes(fields).len()) == fields_bytes(fields),
        parse_one_at(s, pos + fields_bytes(fields).len()) is None,
    ensures
        parse_list_at(s, pos) == (fields, pos + fields_bytes(fields).len()),
    decreases fields, 1int,
{
    if fields.len() == 0 {
        assert(parse_list_at(s, pos) == (Seq::<SigTree>::empty(), pos));
        assert(fields =~= Seq::<SigTree>::empty());
    } else {
        let f = fields[0];
        let rest = fields.drop_first();
        let w = fields_bytes(fields);
        let fb = str_bytes(f, true);
        let rb = fields_bytes(rest);
        assert(w == fb + rb);
        lemma_subrange_shift(s, pos, w, 0, fb.len() as int);
        assert(w.subrange(0, fb.len() as int) =~= fb);
        lemma_print_parse_one(f, s, pos);
        let mid = pos + fb.len();
        lemma_subrange_shift(s, pos, w, fb.len() as int, w.len() as int);
        assert(w.subrange(fb.len() as int, w.len() as int) =~= rb);
        assert(pos + (fb.len() + rb.len()) == mid + rb.len());
        lemma_print_parse_list(rest, s, mid);
        assert(parse_list_at(s, pos) == (seq![f] + rest, mid + rb.len()));
        assert(seq![f] + rest =~= fields);
    }
}

/// Printing a signature and parsing it back is the identity: the canonical
/// form, with outer parentheses, of any well-formed signature or of `Unit`
/// parses to exactly that signature.
pub proof fn lemma_print_parse_round_trip(t: SigTree)
    requires
        t == SigTree::Unit || wf_node(t),
    ensures
        parse_top(str_bytes(t, true)) == Some(t),
{
    let s = str_bytes(t, true);
    if t != SigTree::Unit {
        lemma_wf_head(t);
        assert(s.subrange(0, s.len() as int) =~= s);
        lemma_print_parse_one(t, s, 0);
        assert(parse_list_at(s, s.len() as int) == (Seq::<SigTree>::empty(), s.len() as int));
        assert(parse_list_at(s, 0) == (seq![t], s.len() as int));
        assert(seq![t].len() == 1 && seq![t][0] == t);
    }
}

/// Printing a signature and parsing it back is the identity also without
/// the outer parentheses, as on the wire, except for a structure of
/// exactly one field, whose unwrapped form reads as the field itself.
pub proof fn lemma_print_parse_no_parens_round_trip(t: SigTree)
    requires
        t == SigTree::Unit || wf_node(t),
        t matches SigTree::Structure(fields) ==> fields.len() != 1,
    ensures
        parse_top(str_bytes(t, false)) == Some(t),
{
    let s = str_bytes(t, false);
    match t {
        SigTree::Unit => {},
        SigTree::Structure(fields) => {
            assert(s == fields_bytes(fields));
            assert(s.subrange(0, s.len() as int) =~= s);
            assert(parse_one_at(s, s.len() as int) is None);
            lemma_print_parse_list(fields, s, 0);
            assert(wf_fields(fields));
            assert(wf_node(fields[0]));
            lemma_wf_head(fields[0]);
            lemma_fields_bytes_split_head(fields);
        },
        _ => {
            assert(str_bytes(t, false) == str_bytes(t, true));
            lemma_print_parse_round_trip(t);
        },
    }
}

/// The concatenated form of one or more fields is at least as long as the
/// form of the first.
proof fn lemma_fields_bytes_split_head(fields: Seq<SigTree>)
    requires
        fields.len() >= 1,
    ensures
        fields_bytes(fields).len() >= str_bytes(fields[0], true).len(),
{
}

/// Printing a parsed signature with outer parentheses gives back the input,
/// except that a run of two or more top-level signatures gains the
/// parentheses of the structure that wraps them.
pub proof fn lemma_parse_print_round_trip(s: Seq<u8>)
    requires
        parse_top(s) is Some,
    ensures
        ({
            let t = parse_top(s)->Some_0;
            if s.len() > 0 && parse_list_at(s, 0).0.len() >= 2 {
                str_bytes(t, true) == seq![40u8] + s + seq![41u8]
            } else {
                str_bytes(t, true) == s
            }
        }),
{
    let t = parse_top(s)->Some_0;
    if s.len() == 0 {
        assert(str_bytes(t, true) =~= s);
    } else {
        let (fields, end) = parse_list_at(s, 0);
        lemma_parse_list_prints(s, 0);
        assert(s.subrange(0, s.len() as int) =~= s);
        if fields.len() == 1 {
            assert(fields.drop_first() =~= Seq::<SigTree>::empty());
            assert(fields_bytes(fields) == str_bytes(
                fields[0],
                true,
            ) + fields_bytes(Seq::<SigTree>::empty()));
            assert(str_bytes(t, true) =~= s);
        } else {
            assert(str_bytes(t, true) =~= seq![40u8] + s + seq![41u8]);
        }
    }
}

/// Printing a parsed signature without outer parentheses gives back the
/// input exactly, for any input that is not a single parenthesized
/// structure.
pub proof fn lemma_parse_print_no_parens_round_trip(s: Seq<u8>)
    requires
        parse_top(s) is Some,
        parse_top(s)->Some_0 is Structure ==> s.len() > 0 && parse_list_at(s, 0).0.len() >= 2,
    ensures
        str_bytes(parse_top(s)->Some_0, false) == s,
{
    let t = parse_top(s)->Some_0;
    lemma_parse_print_round_trip(s);
    if s.len() == 0 {
        assert(str_bytes(t, false) =~= s);
    } else {
        let (fields, end) = parse_list_at(s, 0);
        if fields.len() >= 2 {
            assert(t == SigTree::Structure(fields));
            lemma_parse_list_prints(s, 0);
            assert(s.subrange(0, s.len() as int) =~= s);
            assert(str_bytes(t, false) == fields_bytes(fields));
        } else {
            assert(!(t is Structure));
            assert(str_bytes(t, false) == str_bytes(t, true));
        }
    }
}

/// The canonical string of a signature has as many characters as its byte
/// form has bytes.
pub proof fn lemma_string_len_is_to_string_len(t: SigTree, parens: bool)
    ensures
        str_chars(t, parens).len() == str_bytes(t, parens).len(),
{
}

/// Check that the given bytes are a valid signature string, without
/// building any tree. This succeeds exactly when [`Signature::from_bytes`]
/// does.
pub fn validate(bytes: &[u8]) -> (r: Result<(), SignatureError>)
    ensures
        r is Ok <==> parse_top(bytes@) is Some,
        r matches Err(e) ==> e == SignatureError::InvalidSignature,
{
    if bytes.len() == 0 {
        return Ok(());
    }
    let (count, end) = check_list(bytes, 0);
    if end == bytes.len() && count >= 1 {
        Ok(())
    } else {
        Err(SignatureError::InvalidSignature)
    }
}

} // verus!
