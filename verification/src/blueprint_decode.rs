//! The reverse path: strip the version marker, base64-decode, inflate, and
//! parse the canonical structured document back into a decoded layout for
//! reporting. The parser is proved complete for every document the encoder
//! can produce: decoding an encoded layout always succeeds and reproduces
//! its projection.

use vstd::prelude::*;

use crate::blueprint;
use crate::bytes::{chars_to_bytes, dec_bytes, digits_val, is_digit, lemma_dec_bytes_shape,
    lemma_digits_val_dec, lemma_digits_val_take_le, lemma_starts_at_concat, starts_at, wf_text};
use crate::codec::{pos_bytes, quoted_bytes, signal_kind_bytes};

verus! {

/// Kind tag of a decoded icon signal.
#[derive(Clone, Copy, PartialEq, Eq, Structural, Debug)]
pub enum SignalKind {
    Item,
    Fluid,
    Virtual,
}

/// A decoded icon signal: its kind and name (document string bytes).
pub struct Signal {
    pub kind: SignalKind,
    pub name: Vec<u8>,
}

/// A decoded display icon.
pub struct Icon {
    pub signal: Signal,
    pub index: usize,
}

/// A decoded position, in half-cell units like the encoder's.
pub struct Position {
    pub x2: u64,
    pub y2: u64,
}

/// A decoded placed entity. The serialized orientation override, when
/// present, is consumed but not retained: the reverse path reports only
/// names and positions.
pub struct Entity {
    pub entity_number: usize,
    pub name: Vec<u8>,
    pub position: Position,
}

/// A decoded placed tile.
pub struct Tile {
    pub name: Vec<u8>,
    pub position: Position,
}

/// A decoded layout body. The entity and tile lists and the label may be
/// absent from a minimal document; they then default to empty.
pub struct Blueprint {
    pub icons: Vec<Icon>,
    pub entities: Vec<Entity>,
    pub tiles: Vec<Tile>,
    pub item: Vec<u8>,
    pub label: Vec<u8>,
    pub version: u64,
}

/// The decoded top-level document.
pub struct Container {
    pub blueprint: Blueprint,
}

/// Which stage of the reverse path rejected a malformed transport string.
#[derive(Clone, Copy, PartialEq, Eq, Structural, Debug)]
pub enum DecodeError {
    /// The input is empty: there is no version marker to strip.
    Empty,
    /// The text after the marker is not valid base64.
    Base64,
    /// The compressed bytes are not a valid deflate stream.
    Inflate,
    /// The inflated bytes are not a document this parser accepts.
    Parse,
}

/// A decimal number stands at `i` with no digit following it.
pub open spec fn u64_at(dd: Seq<u8>, i: int, n: u64) -> bool {
    &&& starts_at(dd, i, dec_bytes(n as int))
    &&& {
        let j = i + dec_bytes(n as int).len();
        j >= dd.len() || !is_digit(dd[j])
    }
}

/// A well-formed quoted string stands at `i`.
pub open spec fn quoted_at(dd: Seq<u8>, i: int, s: Seq<char>) -> bool {
    wf_text(s) && starts_at(dd, i, quoted_bytes(s))
}

/// Parse a literal: succeeds exactly when the literal's bytes stand at `i`.
fn parse_lit(d: &Vec<u8>, i: usize, lit: &str) -> (r: Option<usize>)
    requires
        lit.is_ascii(),
        i <= d@.len(),
    ensures
        r matches Some(j) ==> j as int == i + lit@.len() && starts_at(
            d@,
            i as int,
            chars_to_bytes(lit@),
        ),
        r is None ==> !starts_at(d@, i as int, chars_to_bytes(lit@)),
{
    let lb = lit.as_bytes();
    proof {
        vstd::string::is_ascii_spec_bytes(lit);
        assert(lb@ =~= chars_to_bytes(lit@));
    }
    let m = lb.len();
    let dlen = d.len();
    if dlen - i < m {
        return None;
    }
    let mut k: usize = 0;
    while k < m
        invariant
            lb@ == chars_to_bytes(lit@),
            m == lb@.len(),
            dlen == d@.len(),
            i + m <= dlen,
            0 <= k <= m,
            forall|j: int| 0 <= j < k ==> d@[i + j] == lb@[j],
        decreases m - k,
    {
        if d[i + k] != lb[k] {
            return None;
        }
        k = k + 1;
    }
    Some(i + m)
}

/// Parse a canonical (no leading zero) decimal number: succeeds on every
/// canonical number followed by a non-digit, and returns exactly it.
fn parse_u64(d: &Vec<u8>, i: usize) -> (r: Option<(u64, usize)>)
    requires
        i <= d@.len(),
    ensures
        r matches Some(p) ==> i < p.1 <= d@.len(),
        forall|n: u64|
            #[trigger] u64_at(d@, i as int, n) ==> (r matches Some(p) && p.0 == n && p.1 as int == i
                + dec_bytes(n as int).len()),
{
    if i >= d.len() || d[i] < 48 || d[i] > 57 {
        proof {
            assert forall|n: u64| !u64_at(d@, i as int, n) by {
                lemma_dec_bytes_shape(n as int);
            }
        }
        return None;
    }
    if d[i] == 48 {
        proof {
            assert forall|n: u64| u64_at(d@, i as int, n) implies n == 0 by {
                lemma_dec_bytes_shape(n as int);
            }
            assert(dec_bytes(0).len() == 1);
        }
        return Some((0, i + 1));
    }
    let mut j: usize = i;
    let mut val: u64 = 0;
    while j < d.len() && 48 <= d[j] && d[j] <= 57
        invariant
            i <= j <= d@.len(),
            i < d@.len(),
            48 < d@[i as int] <= 57,
            forall|k: int| i <= k < j ==> is_digit(#[trigger] d@[k]),
            val == digits_val(d@.subrange(i as int, j as int)),
        decreases d@.len() - j,
    {
        let dig = d[j] - 48;
        proof {
            assert forall|n: u64| u64_at(d@, i as int, n) implies j - i < dec_bytes(
                n as int,
            ).len() by {
                lemma_dec_bytes_shape(n as int);
                if j - i >= dec_bytes(n as int).len() {
                    assert(is_digit(d@[i + dec_bytes(n as int).len()]));
                }
            }
            assert forall|n: u64| u64_at(d@, i as int, n) implies val * 10 + dig <= n by {
                lemma_dec_bytes_shape(n as int);
                assert(d@.subrange(i as int, j as int) =~= dec_bytes(n as int).take(j - i));
                assert(d@.subrange(i as int, j + 1 as int) =~= dec_bytes(n as int).take(
                    j - i + 1,
                ));
                assert(dec_bytes(n as int).take(j - i + 1).drop_last() =~= dec_bytes(
                    n as int,
                ).take(j - i));
                assert(digits_val(dec_bytes(n as int).take(j - i + 1)) == val * 10 + (d@[j as int]
                    - 48));
                lemma_digits_val_take_le(dec_bytes(n as int), j - i + 1);
                lemma_digits_val_dec(n as int);
            }
        }
        if val > (u64::MAX - dig as u64) / 10 {
            proof {
                assert forall|n: u64| !u64_at(d@, i as int, n) by {
                    if u64_at(d@, i as int, n) {
                        assert(val * 10 + dig <= n);
                        assert(val * 10 + dig > u64::MAX) by (nonlinear_arith)
                            requires
                                val > (u64::MAX - dig as u64) / 10,
                                0 <= dig,
                        ;
                    }
                }
            }
            return None;
        }
        val = val * 10 + dig as u64;
        j = j + 1;
        proof {
            assert(d@.subrange(i as int, j as int).drop_last() =~= d@.subrange(
                i as int,
                j - 1 as int,
            ));
        }
    }
    proof {
        assert forall|n: u64| u64_at(d@, i as int, n) implies (j as int == i + dec_bytes(
            n as int,
        ).len() && val == n) by {
            lemma_dec_bytes_shape(n as int);
            let m = dec_bytes(n as int).len();
            if j - i < m {
                assert(is_digit(dec_bytes(n as int)[j - i]));
                assert(d@[j as int] == dec_bytes(n as int)[j - i]);
            }
            if j - i > m {
                assert(is_digit(d@[i + m]));
            }
            assert(j - i == m);
            assert(d@.subrange(i as int, j as int) =~= dec_bytes(n as int));
            lemma_digits_val_dec(n as int);
        }
    }
    Some((val, j))
}

/// Parse a quoted string: succeeds on every well-formed quoted string and
/// returns exactly its bytes.
fn parse_quoted(d: &Vec<u8>, i: usize) -> (r: Option<(Vec<u8>, usize)>)
    requires
        i <= d@.len(),
    ensures
        r matches Some(p) ==> i < p.1 <= d@.len(),
        forall|s: Seq<char>|
            #[trigger] quoted_at(d@, i as int, s) ==> (r matches Some(p) && p.0@ == chars_to_bytes(
                s,
            ) && p.1 as int == i + quoted_bytes(s).len()),
{
    if i >= d.len() || d[i] != 34 {
        proof {
            assert forall|s: Seq<char>| !quoted_at(d@, i as int, s) by {
                if quoted_at(d@, i as int, s) {
                    lemma_quoted_bytes_shape(d@, i as int, s);
                }
            }
        }
        return None;
    }
    let mut j: usize = i + 1;
    let mut name: Vec<u8> = Vec::new();
    while j < d.len() && d[j] != 34
        invariant
            i + 1 <= j <= d@.len(),
            i < d@.len(),
            d@[i as int] == 34,
            name@ == d@.subrange(i + 1 as int, j as int),
            forall|k: int| i + 1 <= k < j ==> d@[k] != 34,
        decreases d@.len() - j,
    {
        name.push(d[j]);
        j = j + 1;
        proof {
            assert(name@ =~= d@.subrange(i + 1 as int, j as int));
        }
    }
    if j >= d.len() {
        proof {
            assert forall|s: Seq<char>| !quoted_at(d@, i as int, s) by {
                if quoted_at(d@, i as int, s) {
                    lemma_quoted_bytes_shape(d@, i as int, s);
                }
            }
        }
        return None;
    }
    proof {
        assert forall|s: Seq<char>| #[trigger]
            quoted_at(d@, i as int, s) implies (name@ == chars_to_bytes(s) && j + 1 == i
            + quoted_bytes(s).len()) by {
            lemma_quoted_bytes_shape(d@, i as int, s);
            let close = i + 1 + s.len();
            if j < close {
                let kk = j - i - 1;
                let ck = s[kk];
                assert(quoted_char_at(d@, i + 1 + kk, ck));
            }
            if j > close {
                assert(d@[close] != 34);
            }
            assert(j == close);
            assert(name@ =~= chars_to_bytes(s));
        }
    }
    Some((name, j + 1))
}

/// The byte at `p` is the byte of character `c` and is not a quote: the
/// per-character shape of the text between a quoted string's quotes.
pub open spec fn quoted_char_at(dd: Seq<u8>, p: int, c: char) -> bool {
    dd[p] == c as u8 && dd[p] != 34
}

/// Where a well-formed quoted string stands, the bytes between the quotes
/// are the string's character bytes, none of them is a quote, and the
/// closing quote follows them.
proof fn lemma_quoted_bytes_shape(dd: Seq<u8>, i: int, s: Seq<char>)
    requires
        quoted_at(dd, i, s),
    ensures
        i + 2 + s.len() <= dd.len(),
        dd[i] == 34,
        forall|k: int|
            0 <= k < s.len() ==> dd[i + 1 + k] == (#[trigger] s[k]) as u8 && dd[i + 1 + k] != 34,
        dd[i + 1 + s.len()] == 34,
{
    lemma_starts_at_concat(dd, i, seq![34u8] + chars_to_bytes(s), seq![34u8]);
    lemma_starts_at_concat(dd, i, seq![34u8], chars_to_bytes(s));
    assert(starts_at(dd, i, seq![34u8]));
    assert((seq![34u8])[0] == 34);
    assert(dd[i + 0] == 34);
    assert(starts_at(dd, i + 1, chars_to_bytes(s)));
    assert forall|k: int|
        0 <= k < s.len() implies dd[i + 1 + k] == (#[trigger] s[k]) as u8 && dd[i + 1 + k]
        != 34 by {
        assert(chars_to_bytes(s)[k] == s[k] as u8);
        assert(' ' <= s[k] <= '~');
        assert(s[k] != '"');
        if s[k] as u8 == 34 {
            assert(s[k] == '"');
        }
    }
    assert(starts_at(dd, i + (seq![34u8] + chars_to_bytes(s)).len(), seq![34u8]));
    assert((seq![34u8] + chars_to_bytes(s)).len() == 1 + s.len());
    assert(dd[i + 1 + s.len() + 0] == 34);
}

/// Parse a position coordinate: succeeds on every canonical coordinate and
/// returns its half-cell units.
fn parse_pos(d: &Vec<u8>, i: usize) -> (r: Option<(u64, usize)>)
    requires
        i <= d@.len(),
    ensures
        r matches Some(p) ==> i < p.1 <= d@.len(),
        forall|h: u64|
            starts_at(d@, i as int, #[trigger] pos_bytes(h as int)) ==> (r matches Some(p) && p.0
                == h && p.1 as int == i + pos_bytes(h as int).len()),
{
    proof {
        reveal_strlit(".");
        reveal_strlit("5");
        reveal_strlit("0");
        assert forall|h: u64|
            starts_at(d@, i as int, #[trigger] pos_bytes(h as int)) implies u64_at(
            d@,
            i as int,
            (h / 2) as u64,
        ) && pos_shape(d@, i as int, h) by {
            lemma_pos_bytes_shape(d@, i as int, h);
        }
    }
    let first = parse_u64(d, i);
    match first {
        None => None,
        Some((k, j)) => {
            if j >= d.len() || d[j] != 46 {
                return None;
            }
            if d.len() - j < 2 {
                return None;
            }
            let c = d[j + 1];
            proof {
                reveal_strlit(".");
                reveal_strlit("5");
                reveal_strlit("0");
                assert forall|h: u64|
                    starts_at(d@, i as int, #[trigger] pos_bytes(h as int)) implies (h / 2 == k
                    && d@[j + 1] == (if h % 2 == 1 {
                    53u8
                } else {
                    48u8
                }) && i + pos_bytes(h as int).len() == j + 2) by {
                    lemma_pos_bytes_shape(d@, i as int, h);
                }
            }
            if c == 48 {
                if k > u64::MAX / 2 {
                    return None;
                }
                Some((2 * k, j + 2))
            } else if c == 53 {
                if k > (u64::MAX - 1) / 2 {
                    return None;
                }
                Some((2 * k + 1, j + 2))
            } else {
                None
            }
        },
    }
}

/// The canonical shape of a serialized position at `i`: the digits of the
/// whole cells, then a point, then the fraction digit.
pub open spec fn pos_shape(dd: Seq<u8>, i: int, h: u64) -> bool {
    let m = dec_bytes(h as int / 2).len();
    &&& i + m + 2 <= dd.len()
    &&& dd[i + m] == 46
    &&& dd[i + m + 1] == (if h % 2 == 1 {
        53u8
    } else {
        48u8
    })
}

/// Decompose a serialized position into its three parts.
proof fn lemma_pos_bytes_shape(dd: Seq<u8>, i: int, h: u64)
    requires
        starts_at(dd, i, pos_bytes(h as int)),
    ensures
        u64_at(dd, i, (h / 2) as u64),
        pos_shape(dd, i, h),
        i + pos_bytes(h as int).len() == i + dec_bytes(h as int / 2).len() + 2,
{
    reveal_strlit(".");
    reveal_strlit("5");
    reveal_strlit("0");
    let frac = if h as int % 2 == 1 {
        chars_to_bytes("5"@)
    } else {
        chars_to_bytes("0"@)
    };
    lemma_starts_at_concat(dd, i, dec_bytes(h as int / 2) + chars_to_bytes("."@), frac);
    lemma_starts_at_concat(dd, i, dec_bytes(h as int / 2), chars_to_bytes("."@));
    assert(chars_to_bytes("."@)[0] == 46);
    assert(chars_to_bytes("5"@)[0] == 53);
    assert(chars_to_bytes("0"@)[0] == 48);
    assert(dd[i + dec_bytes(h as int / 2).len()] == 46);
    assert((h / 2) as int == h as int / 2);
}

/// The decoded signal kind corresponds to the encoder-side kind.
pub open spec fn kind_matches(dk: SignalKind, ek: blueprint::SignalKind) -> bool {
    match (dk, ek) {
        (SignalKind::Item, blueprint::SignalKind::Item) => true,
        (SignalKind::Fluid, blueprint::SignalKind::Fluid) => true,
        (SignalKind::Virtual, blueprint::SignalKind::Virtual) => true,
        _ => false,
    }
}

/// A serialized icon with well-formed name stands at `i`.
pub open spec fn icon_at(dd: Seq<u8>, i: int, ei: blueprint::Icon) -> bool {
    wf_text(ei.signal.name@) && starts_at(dd, i, crate::codec::icon_bytes(ei))
}

/// The decoded icon is the projection of the encoder-side icon.
pub open spec fn icon_projects(di: Icon, ei: blueprint::Icon) -> bool {
    &&& kind_matches(di.signal.kind, ei.signal.kind)
    &&& di.signal.name@ == chars_to_bytes(ei.signal.name@)
    &&& di.index == ei.index
}

/// Where a serialized icon stands, its parts stand back to back.
pub open spec fn icon_parts(dd: Seq<u8>, i: int, ei: blueprint::Icon) -> bool {
    let p1 = i + chars_to_bytes("{\"signal\":{\"type\":"@).len();
    let p2 = p1 + signal_kind_bytes(ei.signal.kind).len();
    let p3 = p2 + chars_to_bytes(",\"name\":"@).len();
    let p4 = p3 + quoted_bytes(ei.signal.name@).len();
    let p5 = p4 + chars_to_bytes("},\"index\":"@).len();
    let p6 = p5 + dec_bytes(ei.index as int).len();
    &&& starts_at(dd, i, chars_to_bytes("{\"signal\":{\"type\":"@))
    &&& starts_at(dd, p1, signal_kind_bytes(ei.signal.kind))
    &&& starts_at(dd, p2, chars_to_bytes(",\"name\":"@))
    &&& quoted_at(dd, p3, ei.signal.name@)
    &&& starts_at(dd, p4, chars_to_bytes("},\"index\":"@))
    &&& u64_at(dd, p5, ei.index as u64)
    &&& starts_at(dd, p6, chars_to_bytes("}"@))
    &&& i + crate::codec::icon_bytes(ei).len() == p6 + 1
}

/// Decompose a serialized icon into its parts.
proof fn lemma_icon_shape(dd: Seq<u8>, i: int, ei: blueprint::Icon)
    requires
        icon_at(dd, i, ei),
    ensures
        icon_parts(dd, i, ei),
{
    reveal_strlit("}");
    let a1 = chars_to_bytes("{\"signal\":{\"type\":"@);
    let a2 = signal_kind_bytes(ei.signal.kind);
    let a3 = chars_to_bytes(",\"name\":"@);
    let a4 = quoted_bytes(ei.signal.name@);
    let a5 = chars_to_bytes("},\"index\":"@);
    let a6 = dec_bytes(ei.index as int);
    let a7 = chars_to_bytes("}"@);
    lemma_starts_at_concat(dd, i, a1 + a2 + a3 + a4 + a5 + a6, a7);
    lemma_starts_at_concat(dd, i, a1 + a2 + a3 + a4 + a5, a6);
    lemma_starts_at_concat(dd, i, a1 + a2 + a3 + a4, a5);
    lemma_starts_at_concat(dd, i, a1 + a2 + a3, a4);
    lemma_starts_at_concat(dd, i, a1 + a2, a3);
    lemma_starts_at_concat(dd, i, a1, a2);
    assert(a7[0] == 125);
    assert(dd[i + (a1 + a2 + a3 + a4 + a5 + a6).len() + 0] == 125);
    assert((ei.index as u64) as int == ei.index as int);
}

/// Parse a signal kind tag: succeeds on each of the three kinds and returns
/// the matching decoded kind.
fn parse_signal_kind(d: &Vec<u8>, i: usize) -> (r: Option<(SignalKind, usize)>)
    requires
        i <= d@.len(),
    ensures
        r matches Some(p) ==> i < p.1 <= d@.len(),
        forall|k: blueprint::SignalKind|
            starts_at(d@, i as int, #[trigger] signal_kind_bytes(k)) ==> (r matches Some(p)
                && kind_matches(p.0, k) && p.1 as int == i + signal_kind_bytes(k).len()),
{
    proof {
        reveal_strlit("\"item\"");
        reveal_strlit("\"fluid\"");
        reveal_strlit("\"virtual\"");
        assert(("\"item\"").is_ascii());
        assert(("\"fluid\"").is_ascii());
        assert(("\"virtual\"").is_ascii());
    }
    if let Some(j) = parse_lit(d, i, "\"item\"") {
        proof {
            assert forall|k: blueprint::SignalKind|
                starts_at(d@, i as int, #[trigger] signal_kind_bytes(k)) implies k
                is Item by {
                if !(k is Item) {
                    assert(chars_to_bytes("\"item\""@)[1] == 'i' as u8);
                    assert(d@[i as int + 1] == 'i' as u8);
                    if k is Fluid {
                        assert(chars_to_bytes("\"fluid\""@)[1] == 'f' as u8);
                        assert(d@[i as int + 1] == 'f' as u8);
                    } else {
                        assert(chars_to_bytes("\"virtual\""@)[1] == 'v' as u8);
                        assert(d@[i as int + 1] == 'v' as u8);
                    }
                }
            }
        }
        return Some((SignalKind::Item, j));
    }
    if let Some(j) = parse_lit(d, i, "\"fluid\"") {
        proof {
            assert forall|k: blueprint::SignalKind|
                starts_at(d@, i as int, #[trigger] signal_kind_bytes(k)) implies k
                is Fluid by {
                if !(k is Fluid) {
                    assert(chars_to_bytes("\"fluid\""@)[1] == 'f' as u8);
                    assert(d@[i as int + 1] == 'f' as u8);
                    if k is Item {
                        assert(chars_to_bytes("\"item\""@)[1] == 'i' as u8);
                        assert(d@[i as int + 1] == 'i' as u8);
                    } else {
                        assert(chars_to_bytes("\"virtual\""@)[1] == 'v' as u8);
                        assert(d@[i as int + 1] == 'v' as u8);
                    }
                }
            }
        }
        return Some((SignalKind::Fluid, j));
    }
    if let Some(j) = parse_lit(d, i, "\"virtual\"") {
        return Some((SignalKind::Virtual, j));
    }
    None
}

/// Parse one icon: succeeds on every well-formed serialized icon and
/// returns its projection.
fn parse_icon(d: &Vec<u8>, i: usize) -> (r: Option<(Icon, usize)>)
    requires
        i <= d@.len(),
    ensures
        r matches Some(p) ==> i < p.1 <= d@.len(),
        forall|ei: blueprint::Icon|
            #[trigger] icon_at(d@, i as int, ei) ==> (r matches Some(p) && icon_projects(p.0, ei)
                && p.1 as int == i + crate::codec::icon_bytes(ei).len()),
{
    proof {
        reveal_strlit("{\"signal\":{\"type\":");
        reveal_strlit(",\"name\":");
        reveal_strlit("},\"index\":");
        reveal_strlit("}");
        assert(("{\"signal\":{\"type\":").is_ascii());
        assert((",\"name\":").is_ascii());
        assert(("},\"index\":").is_ascii());
        assert(("}").is_ascii());
        assert forall|ei: blueprint::Icon| icon_at(d@, i as int, ei) implies icon_parts(
            d@,
            i as int,
            ei,
        ) by {
            lemma_icon_shape(d@, i as int, ei);
        }
    }
    let p1 = match parse_lit(d, i, "{\"signal\":{\"type\":") {
        None => {
            return None;
        },
        Some(p) => p,
    };
    let (kind, p2) = match parse_signal_kind(d, p1) {
        None => {
            return None;
        },
        Some(x) => x,
    };
    let p3 = match parse_lit(d, p2, ",\"name\":") {
        None => {
            return None;
        },
        Some(p) => p,
    };
    let (name, p4) = match parse_quoted(d, p3) {
        None => {
            return None;
        },
        Some(x) => x,
    };
    let p5 = match parse_lit(d, p4, "},\"index\":") {
        None => {
            return None;
        },
        Some(p) => p,
    };
    let (idx, p6) = match parse_u64(d, p5) {
        None => {
            return None;
        },
        Some(x) => x,
    };
    if idx > usize::MAX as u64 {
        return None;
    }
    let p7 = match parse_lit(d, p6, "}") {
        None => {
            return None;
        },
        Some(p) => p,
    };
    Some((Icon { signal: Signal { kind, name }, index: idx as usize }, p7))
}


/// A serialized entity with well-formed name stands at `i`.
pub open spec fn entity_at(dd: Seq<u8>, i: int, ee: blueprint::Entity) -> bool {
    wf_text(ee.name@) && starts_at(dd, i, crate::codec::entity_bytes(ee))
}

/// The decoded entity is the projection of the encoder-side entity; the
/// orientation is not retained.
pub open spec fn entity_projects(de: Entity, ee: blueprint::Entity) -> bool {
    &&& de.entity_number == ee.entity_number
    &&& de.name@ == chars_to_bytes(ee.name@)
    &&& de.position.x2 == ee.position.x2
    &&& de.position.y2 == ee.position.y2
}

/// Where a serialized entity stands, its parts stand back to back.
pub open spec fn entity_parts(dd: Seq<u8>, i: int, ee: blueprint::Entity) -> bool {
    let p1 = i + chars_to_bytes("{\"entity_number\":"@).len();
    let p2 = p1 + dec_bytes(ee.entity_number as int).len();
    let p3 = p2 + chars_to_bytes(",\"name\":"@).len();
    let p4 = p3 + quoted_bytes(ee.name@).len();
    let p5 = p4 + chars_to_bytes(",\"position\":{\"x\":"@).len();
    let p6 = p5 + pos_bytes(ee.position.x2 as int).len();
    let p7 = p6 + chars_to_bytes(",\"y\":"@).len();
    let p8 = p7 + pos_bytes(ee.position.y2 as int).len();
    let p9 = p8 + 1;
    &&& starts_at(dd, i, chars_to_bytes("{\"entity_number\":"@))
    &&& u64_at(dd, p1, ee.entity_number as u64)
    &&& starts_at(dd, p2, chars_to_bytes(",\"name\":"@))
    &&& quoted_at(dd, p3, ee.name@)
    &&& starts_at(dd, p4, chars_to_bytes(",\"position\":{\"x\":"@))
    &&& starts_at(dd, p5, pos_bytes(ee.position.x2 as int))
    &&& starts_at(dd, p6, chars_to_bytes(",\"y\":"@))
    &&& starts_at(dd, p7, pos_bytes(ee.position.y2 as int))
    &&& starts_at(dd, p8, chars_to_bytes("}"@))
    &&& (ee.direction is North ==> starts_at(dd, p9, chars_to_bytes("}"@)) && i
        + crate::codec::entity_bytes(ee).len() == p9 + 1)
    &&& (!(ee.direction is North) ==> starts_at(dd, p9, chars_to_bytes(",\"direction\":"@))
        && u64_at(dd, p9 + 13, blueprint::direction_code(ee.direction) as u64) && starts_at(
        dd,
        p9 + 13 + dec_bytes(blueprint::direction_code(ee.direction)).len(),
        chars_to_bytes("}"@),
    ) && i + crate::codec::entity_bytes(ee).len() == p9 + 14 + dec_bytes(
        blueprint::direction_code(ee.direction),
    ).len())
}

/// Decompose a serialized entity into its parts.
proof fn lemma_entity_shape(dd: Seq<u8>, i: int, ee: blueprint::Entity)
    requires
        entity_at(dd, i, ee),
    ensures
        entity_parts(dd, i, ee),
{
    reveal_strlit("}");
    reveal_strlit(",\"name\":");
    reveal_strlit(",\"direction\":");
    let a1 = chars_to_bytes("{\"entity_number\":"@);
    let a2 = dec_bytes(ee.entity_number as int);
    let a3 = chars_to_bytes(",\"name\":"@);
    let a4 = quoted_bytes(ee.name@);
    let a5 = chars_to_bytes(",\"position\":{\"x\":"@);
    let a6 = pos_bytes(ee.position.x2 as int);
    let a7 = chars_to_bytes(",\"y\":"@);
    let a8 = pos_bytes(ee.position.y2 as int);
    let a9 = chars_to_bytes("}"@);
    let a10 = crate::codec::dir_bytes(ee.direction);
    let a11 = chars_to_bytes("}"@);
    lemma_starts_at_concat(dd, i, a1 + a2 + a3 + a4 + a5 + a6 + a7 + a8 + a9 + a10, a11);
    lemma_starts_at_concat(dd, i, a1 + a2 + a3 + a4 + a5 + a6 + a7 + a8 + a9, a10);
    lemma_starts_at_concat(dd, i, a1 + a2 + a3 + a4 + a5 + a6 + a7 + a8, a9);
    lemma_starts_at_concat(dd, i, a1 + a2 + a3 + a4 + a5 + a6 + a7, a8);
    lemma_starts_at_concat(dd, i, a1 + a2 + a3 + a4 + a5 + a6, a7);
    lemma_starts_at_concat(dd, i, a1 + a2 + a3 + a4 + a5, a6);
    lemma_starts_at_concat(dd, i, a1 + a2 + a3 + a4, a5);
    lemma_starts_at_concat(dd, i, a1 + a2 + a3, a4);
    lemma_starts_at_concat(dd, i, a1 + a2, a3);
    lemma_starts_at_concat(dd, i, a1, a2);
    assert(a3[0] == 44);
    assert(dd[i + (a1 + a2).len() + 0] == 44);
    assert((ee.entity_number as u64) as int == ee.entity_number as int);
    let p9 = i + (a1 + a2 + a3 + a4 + a5 + a6 + a7 + a8 + a9).len();
    if ee.direction is North {
        assert(a10 =~= Seq::<u8>::empty());
        assert(starts_at(dd, p9, a11));
    } else {
        let code = blueprint::direction_code(ee.direction);
        let dirlit = chars_to_bytes(",\"direction\":"@);
        assert(a10 =~= dirlit + dec_bytes(code));
        lemma_starts_at_concat(dd, p9, dirlit, dec_bytes(code));
        assert(dirlit.len() == 13);
        assert(a11[0] == 125);
        assert(dd[p9 + 13 + dec_bytes(code).len() + 0] == 125);
        assert((code as u64) as int == code);
    }
}

/// Parse one entity: succeeds on every well-formed serialized entity,
/// consumes any orientation suffix, and returns the entity's projection.
fn parse_entity(d: &Vec<u8>, i: usize) -> (r: Option<(Entity, usize)>)
    requires
        i <= d@.len(),
    ensures
        r matches Some(p) ==> i < p.1 <= d@.len(),
        forall|ee: blueprint::Entity|
            #[trigger] entity_at(d@, i as int, ee) ==> (r matches Some(p) && entity_projects(
                p.0,
                ee,
            ) && p.1 as int == i + crate::codec::entity_bytes(ee).len()),
{
    proof {
        reveal_strlit("{\"entity_number\":");
        reveal_strlit(",\"name\":");
        reveal_strlit(",\"position\":{\"x\":");
        reveal_strlit(",\"y\":");
        reveal_strlit(",\"direction\":");
        reveal_strlit("}");
        assert(("{\"entity_number\":").is_ascii());
        assert((",\"name\":").is_ascii());
        assert((",\"position\":{\"x\":").is_ascii());
        assert((",\"y\":").is_ascii());
        assert((",\"direction\":").is_ascii());
        assert(("}").is_ascii());
        assert forall|ee: blueprint::Entity| entity_at(d@, i as int, ee) implies entity_parts(
            d@,
            i as int,
            ee,
        ) by {
            lemma_entity_shape(d@, i as int, ee);
        }
    }
    let p1 = match parse_lit(d, i, "{\"entity_number\":") {
        None => {
            return None;
        },
        Some(p) => p,
    };
    let (num, p2) = match parse_u64(d, p1) {
        None => {
            return None;
        },
        Some(x) => x,
    };
    if num > usize::MAX as u64 {
        return None;
    }
    let p3 = match parse_lit(d, p2, ",\"name\":") {
        None => {
            return None;
        },
        Some(p) => p,
    };
    let (name, p4) = match parse_quoted(d, p3) {
        None => {
            return None;
        },
        Some(x) => x,
    };
    let p5 = match parse_lit(d, p4, ",\"position\":{\"x\":") {
        None => {
            return None;
        },
        Some(p) => p,
    };
    let (x2, p6) = match parse_pos(d, p5) {
        None => {
            return None;
        },
        Some(x) => x,
    };
    let p7 = match parse_lit(d, p6, ",\"y\":") {
        None => {
            return None;
        },
        Some(p) => p,
    };
    let (y2, p8) = match parse_pos(d, p7) {
        None => {
            return None;
        },
        Some(x) => x,
    };
    let p9 = match parse_lit(d, p8, "}") {
        None => {
            return None;
        },
        Some(p) => p,
    };
    let p_end = match parse_lit(d, p9, ",\"direction\":") {
        Some(q1) => {
            proof {
                assert((",\"direction\":"@).len() == 13);
                assert forall|ee: blueprint::Entity|
                    entity_at(d@, i as int, ee) implies !(ee.direction is North) by {
                    if ee.direction is North {
                        assert(chars_to_bytes("}"@)[0] == 125);
                        assert(chars_to_bytes(",\"direction\":"@)[0] == 44);
                    }
                }
            }
            let (_code, q2) = match parse_u64(d, q1) {
                None => {
                    return None;
                },
                Some(x) => x,
            };
            match parse_lit(d, q2, "}") {
                None => {
                    return None;
                },
                Some(p) => p,
            }
        },
        None => {
            proof {
                assert forall|ee: blueprint::Entity|
                    entity_at(d@, i as int, ee) implies ee.direction is North by {
                }
            }
            match parse_lit(d, p9, "}") {
                None => {
                    return None;
                },
                Some(p) => p,
            }
        },
    };
    Some(
        (
            Entity { entity_number: num as usize, name, position: Position { x2, y2 } },
            p_end,
        ),
    )
}

/// A serialized tile with well-formed name stands at `i`.
pub open spec fn tile_at(dd: Seq<u8>, i: int, et: blueprint::Tile) -> bool {
    wf_text(et.name@) && starts_at(dd, i, crate::codec::tile_bytes(et))
}

/// The decoded tile is the projection of the encoder-side tile.
pub open spec fn tile_projects(dt: Tile, et: blueprint::Tile) -> bool {
    &&& dt.name@ == chars_to_bytes(et.name@)
    &&& dt.position.x2 == et.position.x2
    &&& dt.position.y2 == et.position.y2
}

/// Where a serialized tile stands, its parts stand back to back.
pub open spec fn tile_parts(dd: Seq<u8>, i: int, et: blueprint::Tile) -> bool {
    let p1 = i + chars_to_bytes("{\"name\":"@).len();
    let p2 = p1 + quoted_bytes(et.name@).len();
    let p3 = p2 + chars_to_bytes(",\"position\":{\"x\":"@).len();
    let p4 = p3 + pos_bytes(et.position.x2 as int).len();
    let p5 = p4 + chars_to_bytes(",\"y\":"@).len();
    let p6 = p5 + pos_bytes(et.position.y2 as int).len();
    &&& starts_at(dd, i, chars_to_bytes("{\"name\":"@))
    &&& quoted_at(dd, p1, et.name@)
    &&& starts_at(dd, p2, chars_to_bytes(",\"position\":{\"x\":"@))
    &&& starts_at(dd, p3, pos_bytes(et.position.x2 as int))
    &&& starts_at(dd, p4, chars_to_bytes(",\"y\":"@))
    &&& starts_at(dd, p5, pos_bytes(et.position.y2 as int))
    &&& starts_at(dd, p6, chars_to_bytes("}}"@))
    &&& i + crate::codec::tile_bytes(et).len() == p6 + 2
}

/// Decompose a serialized tile into its parts.
proof fn lemma_tile_shape(dd: Seq<u8>, i: int, et: blueprint::Tile)
    requires
        tile_at(dd, i, et),
    ensures
        tile_parts(dd, i, et),
{
    reveal_strlit("}}");
    let a1 = chars_to_bytes("{\"name\":"@);
    let a2 = quoted_bytes(et.name@);
    let a3 = chars_to_bytes(",\"position\":{\"x\":"@);
    let a4 = pos_bytes(et.position.x2 as int);
    let a5 = chars_to_bytes(",\"y\":"@);
    let a6 = pos_bytes(et.position.y2 as int);
    let a7 = chars_to_bytes("}}"@);
    lemma_starts_at_concat(dd, i, a1 + a2 + a3 + a4 + a5 + a6, a7);
    lemma_starts_at_concat(dd, i, a1 + a2 + a3 + a4 + a5, a6);
    lemma_starts_at_concat(dd, i, a1 + a2 + a3 + a4, a5);
    lemma_starts_at_concat(dd, i, a1 + a2 + a3, a4);
    lemma_starts_at_concat(dd, i, a1 + a2, a3);
    lemma_starts_at_concat(dd, i, a1, a2);
}

/// Parse one tile: succeeds on every well-formed serialized tile and
/// returns its projection.
fn parse_tile(d: &Vec<u8>, i: usize) -> (r: Option<(Tile, usize)>)
    requires
        i <= d@.len(),
    ensures
        r matches Some(p) ==> i < p.1 <= d@.len(),
        forall|et: blueprint::Tile|
            #[trigger] tile_at(d@, i as int, et) ==> (r matches Some(p) && tile_projects(p.0, et)
                && p.1 as int == i + crate::codec::tile_bytes(et).len()),
{
    proof {
        reveal_strlit("{\"name\":");
        reveal_strlit(",\"position\":{\"x\":");
        reveal_strlit(",\"y\":");
        reveal_strlit("}}");
        assert(("{\"name\":").is_ascii());
        assert((",\"position\":{\"x\":").is_ascii());
        assert((",\"y\":").is_ascii());
        assert(("}}").is_ascii());
        assert forall|et: blueprint::Tile| tile_at(d@, i as int, et) implies tile_parts(
            d@,
            i as int,
            et,
        ) by {
            lemma_tile_shape(d@, i as int, et);
        }
    }
    let p1 = match parse_lit(d, i, "{\"name\":") {
        None => {
            return None;
        },
        Some(p) => p,
    };
    let (name, p2) = match parse_quoted(d, p1) {
        None => {
            return None;
        },
        Some(x) => x,
    };
    let p3 = match parse_lit(d, p2, ",\"position\":{\"x\":") {
        None => {
            return None;
        },
        Some(p) => p,
    };
    let (x2, p4) = match parse_pos(d, p3) {
        None => {
            return None;
        },
        Some(x) => x,
    };
    let p5 = match parse_lit(d, p4, ",\"y\":") {
        None => {
            return None;
        },
        Some(p) => p,
    };
    let (y2, p6) = match parse_pos(d, p5) {
        None => {
            return None;
        },
        Some(x) => x,
    };
    let p7 = match parse_lit(d, p6, "}}") {
        None => {
            return None;
        },
        Some(p) => p,
    };
    Some((Tile { name, position: Position { x2, y2 } }, p7))
}


/// Every element name in the list is well-formed document text.
pub open spec fn wf_icons(s: Seq<blueprint::Icon>) -> bool {
    forall|k: int| 0 <= k < s.len() ==> wf_text((#[trigger] s[k]).signal.name@)
}

/// A serialized icon list stands at `i`, terminated by the closing bracket.
pub open spec fn icons_at(dd: Seq<u8>, i: int, s: Seq<blueprint::Icon>) -> bool {
    &&& wf_icons(s)
    &&& starts_at(dd, i, crate::codec::icons_from(s, 0))
    &&& i + crate::codec::icons_from(s, 0).len() < dd.len()
    &&& dd[i + crate::codec::icons_from(s, 0).len()] == 93
}

/// The decoded icon list is the element-wise projection of the list.
pub open spec fn icons_project(ds: Seq<Icon>, s: Seq<blueprint::Icon>) -> bool {
    &&& ds.len() == s.len()
    &&& forall|k: int| 0 <= k < s.len() ==> icon_projects(#[trigger] ds[k], s[k])
}

/// Where the serialized bytes of element `t` of the list start.
pub open spec fn icons_estart(i: int, s: Seq<blueprint::Icon>, t: int) -> int {
    i + crate::codec::icons_from(s, 0).len() - crate::codec::icons_from(s, t).len() + (if t > 0 {
        1int
    } else {
        0
    })
}

/// The list suffix from element `t` stands where the lengths place it.
proof fn lemma_icons_suffix(dd: Seq<u8>, i: int, s: Seq<blueprint::Icon>, t: int)
    requires
        starts_at(dd, i, crate::codec::icons_from(s, 0)),
        0 <= t <= s.len(),
    ensures
        starts_at(
            dd,
            i + crate::codec::icons_from(s, 0).len() - crate::codec::icons_from(s, t).len(),
            crate::codec::icons_from(s, t),
        ),
    decreases t,
{
    if t > 0 {
        lemma_icons_suffix(dd, i, s, t - 1);
        let sep = if t - 1 > 0 {
            chars_to_bytes(","@)
        } else {
            Seq::<u8>::empty()
        };
        assert(crate::codec::icons_from(s, t - 1) == sep + crate::codec::icon_bytes(s[t - 1])
            + crate::codec::icons_from(s, t));
        lemma_starts_at_concat(
            dd,
            i + crate::codec::icons_from(s, 0).len() - crate::codec::icons_from(s, t - 1).len(),
            sep + crate::codec::icon_bytes(s[t - 1]),
            crate::codec::icons_from(s, t),
        );
    }
}

/// Element `t` of the list stands at its start position; a comma follows it
/// when more elements follow, the closing position when none do.
proof fn lemma_icons_elem(dd: Seq<u8>, i: int, s: Seq<blueprint::Icon>, t: int)
    requires
        starts_at(dd, i, crate::codec::icons_from(s, 0)),
        0 <= t < s.len(),
    ensures
        starts_at(dd, icons_estart(i, s, t), crate::codec::icon_bytes(s[t])),
        t + 1 < s.len() ==> dd[icons_estart(i, s, t) + crate::codec::icon_bytes(s[t]).len()] == 44
            && icons_estart(i, s, t + 1) == icons_estart(i, s, t) + crate::codec::icon_bytes(
            s[t],
        ).len() + 1,
        t + 1 == s.len() ==> icons_estart(i, s, t) + crate::codec::icon_bytes(s[t]).len() == i
            + crate::codec::icons_from(s, 0).len(),
{
    reveal_strlit(",");
    lemma_icons_suffix(dd, i, s, t);
    let post = i + crate::codec::icons_from(s, 0).len() - crate::codec::icons_from(s, t).len();
    let sep = if t > 0 {
        chars_to_bytes(","@)
    } else {
        Seq::<u8>::empty()
    };
    assert(crate::codec::icons_from(s, t) == sep + crate::codec::icon_bytes(s[t])
        + crate::codec::icons_from(s, t + 1));
    lemma_starts_at_concat(
        dd,
        post,
        sep + crate::codec::icon_bytes(s[t]),
        crate::codec::icons_from(s, t + 1),
    );
    lemma_starts_at_concat(dd, post, sep, crate::codec::icon_bytes(s[t]));
    if t + 1 < s.len() {
        let post2 = post + sep.len() + crate::codec::icon_bytes(s[t]).len();
        assert(starts_at(dd, post2, crate::codec::icons_from(s, t + 1)));
        let sep2 = chars_to_bytes(","@);
        assert(crate::codec::icons_from(s, t + 1) == sep2 + crate::codec::icon_bytes(s[t + 1])
            + crate::codec::icons_from(s, t + 2));
        assert(sep2 + crate::codec::icon_bytes(s[t + 1]) + crate::codec::icons_from(s, t + 2)
            =~= sep2 + (crate::codec::icon_bytes(s[t + 1]) + crate::codec::icons_from(
            s,
            t + 2,
        )));
        lemma_starts_at_concat(
            dd,
            post2,
            sep2,
            crate::codec::icon_bytes(s[t + 1]) + crate::codec::icons_from(s, t + 2),
        );
        assert(sep2[0] == 44);
        assert(dd[post2 + 0] == 44);
    }
}

/// Parse a icon list up to (not consuming) its closing bracket: succeeds on
/// every well-formed serialized list and returns its projection.
fn parse_icons(d: &Vec<u8>, i: usize) -> (r: Option<(Vec<Icon>, usize)>)
    requires
        i <= d@.len(),
    ensures
        r matches Some(p) ==> i <= p.1 <= d@.len(),
        forall|s: Seq<blueprint::Icon>|
            #[trigger] icons_at(d@, i as int, s) ==> (r matches Some(p) && icons_project(p.0@, s)
                && p.1 as int == i + crate::codec::icons_from(s, 0).len()),
{
    proof {
        reveal_strlit("{\"signal\":{\"type\":");
    }
    if i >= d.len() {
        return None;
    }
    if d[i] == 93 {
        proof {
            assert forall|s: Seq<blueprint::Icon>|
                icons_at(d@, i as int, s) implies s.len() == 0 by {
                if s.len() > 0 {
                    lemma_icons_elem(d@, i as int, s, 0);
                    assert(icons_estart(i as int, s, 0) == i as int);
                    lemma_icon_shape(d@, i as int, s[0]);
                    assert(chars_to_bytes("{\"signal\":{\"type\":"@)[0] == 123);
                    assert(d@[i as int + 0] == 123);
                }
            }
        }
        return Some((Vec::new(), i));
    }
    let mut acc: Vec<Icon> = Vec::new();
    let mut pos: usize = i;
    let mut finished = false;
    let mut ok = true;
    while !finished
        invariant
            i <= pos <= d@.len(),
            !finished ==> ok,
            !finished ==> forall|s: Seq<blueprint::Icon>|
                #[trigger] icons_at(d@, i as int, s) ==> (acc@.len() < s.len() && pos as int
                    == icons_estart(i as int, s, acc@.len() as int) && (forall|k: int|
                    0 <= k < acc@.len() ==> icon_projects(#[trigger] acc@[k], s[k]))),
            finished && ok ==> forall|s: Seq<blueprint::Icon>|
                #[trigger] icons_at(d@, i as int, s) ==> (icons_project(acc@, s) && pos as int == i
                    + crate::codec::icons_from(s, 0).len()),
            finished && !ok ==> forall|s: Seq<blueprint::Icon>| !icons_at(d@, i as int, s),
        decreases d@.len() - pos, (if finished {
            0int
        } else {
            1int
        }),
    {
        let ghost t = acc@.len() as int;
        proof {
            assert forall|s: Seq<blueprint::Icon>|
                icons_at(d@, i as int, s) implies (icon_at(d@, pos as int, s[t])
                && wf_text(s[t].signal.name@)) by {
                lemma_icons_elem(d@, i as int, s, t);
            }
        }
        match parse_icon(d, pos) {
            None => {
                ok = false;
                finished = true;
            },
            Some((el, p2)) => {
                acc.push(el);
                proof {
                    assert forall|s: Seq<blueprint::Icon>|
                        icons_at(d@, i as int, s) implies (p2 as int == icons_estart(i as int, s, t)
                        + crate::codec::icon_bytes(s[t]).len() && icon_projects(acc@[t], s[t]) && (
                    forall|k: int|
                        0 <= k < acc@.len() ==> icon_projects(
                            #[trigger] acc@[k],
                            s[k],
                        ))) by {
                        lemma_icons_elem(d@, i as int, s, t);
                    }
                }
                if p2 < d.len() && d[p2] == 44 {
                    proof {
                        assert forall|s: Seq<blueprint::Icon>|
                            icons_at(d@, i as int, s) implies t + 1 < s.len() by {
                            lemma_icons_elem(d@, i as int, s, t);
                            if t + 1 == s.len() {
                                assert(d@[p2 as int] == 93);
                            }
                        }
                        assert forall|s: Seq<blueprint::Icon>|
                            icons_at(d@, i as int, s) implies p2 + 1 as int == icons_estart(
                            i as int,
                            s,
                            t + 1,
                        ) by {
                            lemma_icons_elem(d@, i as int, s, t);
                        }
                    }
                    pos = p2 + 1;
                } else {
                    proof {
                        assert forall|s: Seq<blueprint::Icon>|
                            icons_at(d@, i as int, s) implies t + 1 == s.len() by {
                            lemma_icons_elem(d@, i as int, s, t);
                        }
                        assert forall|s: Seq<blueprint::Icon>|
                            icons_at(d@, i as int, s) implies (icons_project(acc@, s)
                            && p2 as int == i + crate::codec::icons_from(s, 0).len()) by {
                            lemma_icons_elem(d@, i as int, s, t);
                        }
                    }
                    pos = p2;
                    finished = true;
                }
            },
        }
    }
    if ok {
        Some((acc, pos))
    } else {
        None
    }
}

/// Every element name in the list is well-formed document text.
pub open spec fn wf_entities(s: Seq<blueprint::Entity>) -> bool {
    forall|k: int| 0 <= k < s.len() ==> wf_text((#[trigger] s[k]).name@)
}

/// A serialized entity list stands at `i`, terminated by the closing bracket.
pub open spec fn entities_at(dd: Seq<u8>, i: int, s: Seq<blueprint::Entity>) -> bool {
    &&& wf_entities(s)
    &&& starts_at(dd, i, crate::codec::entities_from(s, 0))
    &&& i + crate::codec::entities_from(s, 0).len() < dd.len()
    &&& dd[i + crate::codec::entities_from(s, 0).len()] == 93
}

/// The decoded entity list is the element-wise projection of the list.
pub open spec fn entities_project(ds: Seq<Entity>, s: Seq<blueprint::Entity>) -> bool {
    &&& ds.len() == s.len()
    &&& forall|k: int| 0 <= k < s.len() ==> entity_projects(#[trigger] ds[k], s[k])
}

/// Where the serialized bytes of element `t` of the list start.
pub open spec fn entities_estart(i: int, s: Seq<blueprint::Entity>, t: int) -> int {
    i + crate::codec::entities_from(s, 0).len() - crate::codec::entities_from(s, t).len() + (if t > 0 {
        1int
    } else {
        0
    })
}

/// The list suffix from element `t` stands where the lengths place it.
proof fn lemma_entities_suffix(dd: Seq<u8>, i: int, s: Seq<blueprint::Entity>, t: int)
    requires
        starts_at(dd, i, crate::codec::entities_from(s, 0)),
        0 <= t <= s.len(),
    ensures
        starts_at(
            dd,
            i + crate::codec::entities_from(s, 0).len() - crate::codec::entities_from(s, t).len(),
            crate::codec::entities_from(s, t),
        ),
    decreases t,
{
    if t > 0 {
        lemma_entities_suffix(dd, i, s, t - 1);
        let sep = if t - 1 > 0 {
            chars_to_bytes(","@)
        } else {
            Seq::<u8>::empty()
        };
        assert(crate::codec::entities_from(s, t - 1) == sep + crate::codec::entity_bytes(s[t - 1])
            + crate::codec::entities_from(s, t));
        lemma_starts_at_concat(
            dd,
            i + crate::codec::entities_from(s, 0).len() - crate::codec::entities_from(s, t - 1).len(),
            sep + crate::codec::entity_bytes(s[t - 1]),
            crate::codec::entities_from(s, t),
        );
    }
}

/// Element `t` of the list stands at its start position; a comma follows it
/// when more elements follow, the closing position when none do.
proof fn lemma_entities_elem(dd: Seq<u8>, i: int, s: Seq<blueprint::Entity>, t: int)
    requires
        starts_at(dd, i, crate::codec::entities_from(s, 0)),
        0 <= t < s.len(),
    ensures
        starts_at(dd, entities_estart(i, s, t), crate::codec::entity_bytes(s[t])),
        t + 1 < s.len() ==> dd[entities_estart(i, s, t) + crate::codec::entity_bytes(s[t]).len()] == 44
            && entities_estart(i, s, t + 1) == entities_estart(i, s, t) + crate::codec::entity_bytes(
            s[t],
        ).len() + 1,
        t + 1 == s.len() ==> entities_estart(i, s, t) + crate::codec::entity_bytes(s[t]).len() == i
            + crate::codec::entities_from(s, 0).len(),
{
    reveal_strlit(",");
    lemma_entities_suffix(dd, i, s, t);
    let post = i + crate::codec::entities_from(s, 0).len() - crate::codec::entities_from(s, t).len();
    let sep = if t > 0 {
        chars_to_bytes(","@)
    } else {
        Seq::<u8>::empty()
    };
    assert(crate::codec::entities_from(s, t) == sep + crate::codec::entity_bytes(s[t])
        + crate::codec::entities_from(s, t + 1));
    lemma_starts_at_concat(
        dd,
        post,
        sep + crate::codec::entity_bytes(s[t]),
        crate::codec::entities_from(s, t + 1),
    );
    lemma_starts_at_concat(dd, post, sep, crate::codec::entity_bytes(s[t]));
    if t + 1 < s.len() {
        let post2 = post + sep.len() + crate::codec::entity_bytes(s[t]).len();
        assert(starts_at(dd, post2, crate::codec::entities_from(s, t + 1)));
        let sep2 = chars_to_bytes(","@);
        assert(crate::codec::entities_from(s, t + 1) == sep2 + crate::codec::entity_bytes(s[t + 1])
            + crate::codec::entities_from(s, t + 2));
        assert(sep2 + crate::codec::entity_bytes(s[t + 1]) + crate::codec::entities_from(s, t + 2)
            =~= sep2 + (crate::codec::entity_bytes(s[t + 1]) + crate::codec::entities_from(
            s,
            t + 2,
        )));
        lemma_starts_at_concat(
            dd,
            post2,
            sep2,
            crate::codec::entity_bytes(s[t + 1]) + crate::codec::entities_from(s, t + 2),
        );
        assert(sep2[0] == 44);
        assert(dd[post2 + 0] == 44);
    }
}

/// Parse a entity list up to (not consuming) its closing bracket: succeeds on
/// every well-formed serialized list and returns its projection.
fn parse_entities(d: &Vec<u8>, i: usize) -> (r: Option<(Vec<Entity>, usize)>)
    requires
        i <= d@.len(),
    ensures
        r matches Some(p) ==> i <= p.1 <= d@.len(),
        forall|s: Seq<blueprint::Entity>|
            #[trigger] entities_at(d@, i as int, s) ==> (r matches Some(p) && entities_project(p.0@, s)
                && p.1 as int == i + crate::codec::entities_from(s, 0).len()),
{
    proof {
        reveal_strlit("{\"entity_number\":");
    }
    if i >= d.len() {
        return None;
    }
    if d[i] == 93 {
        proof {
            assert forall|s: Seq<blueprint::Entity>|
                entities_at(d@, i as int, s) implies s.len() == 0 by {
                if s.len() > 0 {
                    lemma_entities_elem(d@, i as int, s, 0);
                    assert(entities_estart(i as int, s, 0) == i as int);
                    lemma_entity_shape(d@, i as int, s[0]);
                    assert(chars_to_bytes("{\"entity_number\":"@)[0] == 123);
                    assert(d@[i as int + 0] == 123);
                }
            }
        }
        return Some((Vec::new(), i));
    }
    let mut acc: Vec<Entity> = Vec::new();
    let mut pos: usize = i;
    let mut finished = false;
    let mut ok = true;
    while !finished
        invariant
            i <= pos <= d@.len(),
            !finished ==> ok,
            !finished ==> forall|s: Seq<blueprint::Entity>|
                #[trigger] entities_at(d@, i as int, s) ==> (acc@.len() < s.len() && pos as int
                    == entities_estart(i as int, s, acc@.len() as int) && (forall|k: int|
                    0 <= k < acc@.len() ==> entity_projects(#[trigger] acc@[k], s[k]))),
            finished && ok ==> forall|s: Seq<blueprint::Entity>|
                #[trigger] entities_at(d@, i as int, s) ==> (entities_project(acc@, s) && pos as int == i
                    + crate::codec::entities_from(s, 0).len()),
            finished && !ok ==> forall|s: Seq<blueprint::Entity>| !entities_at(d@, i as int, s),
        decreases d@.len() - pos, (if finished {
            0int
        } else {
            1int
        }),
    {
        let ghost t = acc@.len() as int;
        proof {
            assert forall|s: Seq<blueprint::Entity>|
                entities_at(d@, i as int, s) implies (entity_at(d@, pos as int, s[t])
                && wf_text(s[t].name@)) by {
                lemma_entities_elem(d@, i as int, s, t);
            }
        }
        match parse_entity(d, pos) {
            None => {
                ok = false;
                finished = true;
            },
            Some((el, p2)) => {
                acc.push(el);
                proof {
                    assert forall|s: Seq<blueprint::Entity>|
                        entities_at(d@, i as int, s) implies (p2 as int == entities_estart(i as int, s, t)
                        + crate::codec::entity_bytes(s[t]).len() && entity_projects(acc@[t], s[t]) && (
                    forall|k: int|
                        0 <= k < acc@.len() ==> entity_projects(
                            #[trigger] acc@[k],
                            s[k],
                        ))) by {
                        lemma_entities_elem(d@, i as int, s, t);
                    }
                }
                if p2 < d.len() && d[p2] == 44 {
                    proof {
                        assert forall|s: Seq<blueprint::Entity>|
                            entities_at(d@, i as int, s) implies t + 1 < s.len() by {
                            lemma_entities_elem(d@, i as int, s, t);
                            if t + 1 == s.len() {
                                assert(d@[p2 as int] == 93);
                            }
                        }
                        assert forall|s: Seq<blueprint::Entity>|
                            entities_at(d@, i as int, s) implies p2 + 1 as int == entities_estart(
                            i as int,
                            s,
                            t + 1,
                        ) by {
                            lemma_entities_elem(d@, i as int, s, t);
                        }
                    }
                    pos = p2 + 1;
                } else {
                    proof {
                        assert forall|s: Seq<blueprint::Entity>|
                            entities_at(d@, i as int, s) implies t + 1 == s.len() by {
                            lemma_entities_elem(d@, i as int, s, t);
                        }
                        assert forall|s: Seq<blueprint::Entity>|
                            entities_at(d@, i as int, s) implies (entities_project(acc@, s)
                            && p2 as int == i + crate::codec::entities_from(s, 0).len()) by {
                            lemma_entities_elem(d@, i as int, s, t);
                        }
                    }
                    pos = p2;
                    finished = true;
                }
            },
        }
    }
    if ok {
        Some((acc, pos))
    } else {
        None
    }
}

/// Every element name in the list is well-formed document text.
pub open spec fn wf_tiles(s: Seq<blueprint::Tile>) -> bool {
    forall|k: int| 0 <= k < s.len() ==> wf_text((#[trigger] s[k]).name@)
}

/// A serialized tile list stands at `i`, terminated by the closing bracket.
pub open spec fn tiles_at(dd: Seq<u8>, i: int, s: Seq<blueprint::Tile>) -> bool {
    &&& wf_tiles(s)
    &&& starts_at(dd, i, crate::codec::tiles_from(s, 0))
    &&& i + crate::codec::tiles_from(s, 0).len() < dd.len()
    &&& dd[i + crate::codec::tiles_from(s, 0).len()] == 93
}

/// The decoded tile list is the element-wise projection of the list.
pub open spec fn tiles_project(ds: Seq<Tile>, s: Seq<blueprint::Tile>) -> bool {
    &&& ds.len() == s.len()
    &&& forall|k: int| 0 <= k < s.len() ==> tile_projects(#[trigger] ds[k], s[k])
}

/// Where the serialized bytes of element `t` of the list start.
pub open spec fn tiles_estart(i: int, s: Seq<blueprint::Tile>, t: int) -> int {
    i + crate::codec::tiles_from(s, 0).len() - crate::codec::tiles_from(s, t).len() + (if t > 0 {
        1int
    } else {
        0
    })
}

/// The list suffix from element `t` stands where the lengths place it.
proof fn lemma_tiles_suffix(dd: Seq<u8>, i: int, s: Seq<blueprint::Tile>, t: int)
    requires
        starts_at(dd, i, crate::codec::tiles_from(s, 0)),
        0 <= t <= s.len(),
    ensures
        starts_at(
            dd,
            i + crate::codec::tiles_from(s, 0).len() - crate::codec::tiles_from(s, t).len(),
            crate::codec::tiles_from(s, t),
        ),
    decreases t,
{
    if t > 0 {
        lemma_tiles_suffix(dd, i, s, t - 1);
        let sep = if t - 1 > 0 {
            chars_to_bytes(","@)
        } else {
            Seq::<u8>::empty()
        };
        assert(crate::codec::tiles_from(s, t - 1) == sep + crate::codec::tile_bytes(s[t - 1])
            + crate::codec::tiles_from(s, t));
        lemma_starts_at_concat(
            dd,
            i + crate::codec::tiles_from(s, 0).len() - crate::codec::tiles_from(s, t - 1).len(),
            sep + crate::codec::tile_bytes(s[t - 1]),
            crate::codec::tiles_from(s, t),
        );
    }
}

/// Element `t` of the list stands at its start position; a comma follows it
/// when more elements follow, the closing position when none do.
proof fn lemma_tiles_elem(dd: Seq<u8>, i: int, s: Seq<blueprint::Tile>, t: int)
    requires
        starts_at(dd, i, crate::codec::tiles_from(s, 0)),
        0 <= t < s.len(),
    ensures
        starts_at(dd, tiles_estart(i, s, t), crate::codec::tile_bytes(s[t])),
        t + 1 < s.len() ==> dd[tiles_estart(i, s, t) + crate::codec::tile_bytes(s[t]).len()] == 44
            && tiles_estart(i, s, t + 1) == tiles_estart(i, s, t) + crate::codec::tile_bytes(
            s[t],
        ).len() + 1,
        t + 1 == s.len() ==> tiles_estart(i, s, t) + crate::codec::tile_bytes(s[t]).len() == i
            + crate::codec::tiles_from(s, 0).len(),
{
    reveal_strlit(",");
    lemma_tiles_suffix(dd, i, s, t);
    let post = i + crate::codec::tiles_from(s, 0).len() - crate::codec::tiles_from(s, t).len();
    let sep = if t > 0 {
        chars_to_bytes(","@)
    } else {
        Seq::<u8>::empty()
    };
    assert(crate::codec::tiles_from(s, t) == sep + crate::codec::tile_bytes(s[t])
        + crate::codec::tiles_from(s, t + 1));
    lemma_starts_at_concat(
        dd,
        post,
        sep + crate::codec::tile_bytes(s[t]),
        crate::codec::tiles_from(s, t + 1),
    );
    lemma_starts_at_concat(dd, post, sep, crate::codec::tile_bytes(s[t]));
    if t + 1 < s.len() {
        let post2 = post + sep.len() + crate::codec::tile_bytes(s[t]).len();
        assert(starts_at(dd, post2, crate::codec::tiles_from(s, t + 1)));
        let sep2 = chars_to_bytes(","@);
        assert(crate::codec::tiles_from(s, t + 1) == sep2 + crate::codec::tile_bytes(s[t + 1])
            + crate::codec::tiles_from(s, t + 2));
        assert(sep2 + crate::codec::tile_bytes(s[t + 1]) + crate::codec::tiles_from(s, t + 2)
            =~= sep2 + (crate::codec::tile_bytes(s[t + 1]) + crate::codec::tiles_from(
            s,
            t + 2,
        )));
        lemma_starts_at_concat(
            dd,
            post2,
            sep2,
            crate::codec::tile_bytes(s[t + 1]) + crate::codec::tiles_from(s, t + 2),
        );
        assert(sep2[0] == 44);
        assert(dd[post2 + 0] == 44);
    }
}

/// Parse a tile list up to (not consuming) its closing bracket: succeeds on
/// every well-formed serialized list and returns its projection.
#[verifier::rlimit(60)]
fn parse_tiles(d: &Vec<u8>, i: usize) -> (r: Option<(Vec<Tile>, usize)>)
    requires
        i <= d@.len(),
    ensures
        r matches Some(p) ==> i <= p.1 <= d@.len(),
        forall|s: Seq<blueprint::Tile>|
            #[trigger] tiles_at(d@, i as int, s) ==> (r matches Some(p) && tiles_project(p.0@, s)
                && p.1 as int == i + crate::codec::tiles_from(s, 0).len()),
{
    proof {
        reveal_strlit("{\"name\":");
    }
    if i >= d.len() {
        return None;
    }
    if d[i] == 93 {
        proof {
            assert forall|s: Seq<blueprint::Tile>|
                tiles_at(d@, i as int, s) implies s.len() == 0 by {
                if s.len() > 0 {
                    lemma_tiles_elem(d@, i as int, s, 0);
                    assert(tiles_estart(i as int, s, 0) == i as int);
                    lemma_tile_shape(d@, i as int, s[0]);
                    assert(chars_to_bytes("{\"name\":"@)[0] == 123);
                    assert(d@[i as int + 0] == 123);
                }
            }
        }
        return Some((Vec::new(), i));
    }
    let mut acc: Vec<Tile> = Vec::new();
    let mut pos: usize = i;
    let mut finished = false;
    let mut ok = true;
    while !finished
        invariant
            i <= pos <= d@.len(),
            !finished ==> ok,
            !finished ==> forall|s: Seq<blueprint::Tile>|
                #[trigger] tiles_at(d@, i as int, s) ==> (acc@.len() < s.len() && pos as int
                    == tiles_estart(i as int, s, acc@.len() as int) && (forall|k: int|
                    0 <= k < acc@.len() ==> tile_projects(#[trigger] acc@[k], s[k]))),
            finished && ok ==> forall|s: Seq<blueprint::Tile>|
                #[trigger] tiles_at(d@, i as int, s) ==> (tiles_project(acc@, s) && pos as int == i
                    + crate::codec::tiles_from(s, 0).len()),
            finished && !ok ==> forall|s: Seq<blueprint::Tile>| !tiles_at(d@, i as int, s),
        decreases d@.len() - pos, (if finished {
            0int
        } else {
            1int
        }),
    {
        let ghost t = acc@.len() as int;
        proof {
            assert forall|s: Seq<blueprint::Tile>|
                tiles_at(d@, i as int, s) implies (tile_at(d@, pos as int, s[t])
                && wf_text(s[t].name@)) by {
                lemma_tiles_elem(d@, i as int, s, t);
            }
        }
        match parse_tile(d, pos) {
            None => {
                ok = false;
                finished = true;
            },
            Some((el, p2)) => {
                acc.push(el);
                proof {
                    assert forall|s: Seq<blueprint::Tile>|
                        tiles_at(d@, i as int, s) implies (p2 as int == tiles_estart(i as int, s, t)
                        + crate::codec::tile_bytes(s[t]).len() && tile_projects(acc@[t], s[t]) && (
                    forall|k: int|
                        0 <= k < acc@.len() ==> tile_projects(
                            #[trigger] acc@[k],
                            s[k],
                        ))) by {
                        lemma_tiles_elem(d@, i as int, s, t);
                    }
                }
                if p2 < d.len() && d[p2] == 44 {
                    proof {
                        assert forall|s: Seq<blueprint::Tile>|
                            tiles_at(d@, i as int, s) implies t + 1 < s.len() by {
                            lemma_tiles_elem(d@, i as int, s, t);
                            if t + 1 == s.len() {
                                assert(d@[p2 as int] == 93);
                            }
                        }
                        assert forall|s: Seq<blueprint::Tile>|
                            tiles_at(d@, i as int, s) implies p2 + 1 as int == tiles_estart(
                            i as int,
                            s,
                            t + 1,
                        ) by {
                            lemma_tiles_elem(d@, i as int, s, t);
                        }
                    }
                    pos = p2 + 1;
                } else {
                    proof {
                        assert forall|s: Seq<blueprint::Tile>|
                            tiles_at(d@, i as int, s) implies t + 1 == s.len() by {
                            lemma_tiles_elem(d@, i as int, s, t);
                        }
                        assert forall|s: Seq<blueprint::Tile>|
                            tiles_at(d@, i as int, s) implies (tiles_project(acc@, s)
                            && p2 as int == i + crate::codec::tiles_from(s, 0).len()) by {
                            lemma_tiles_elem(d@, i as int, s, t);
                        }
                    }
                    pos = p2;
                    finished = true;
                    proof {
                        assert forall|s: Seq<blueprint::Tile>|
                            #[trigger] tiles_at(d@, i as int, s) implies (tiles_project(acc@, s)
                            && pos as int == i + crate::codec::tiles_from(s, 0).len()) by {
                        }
                    }
                }
            },
        }
    }
    if ok {
        Some((acc, pos))
    } else {
        None
    }
}


/// A well-formed canonical document for container `c` makes up the whole of
/// `dd`.
pub open spec fn doc_at(dd: Seq<u8>, c: blueprint::Container) -> bool {
    crate::codec::wf_container(c) && dd == crate::codec::doc_bytes(c)
}

/// The decoded container is the field-wise projection of the encoder-side
/// container: same icons, same entities (names, ids and positions), same
/// tiles, same kind tag, label and format version.
pub open spec fn container_projects(dc: Container, c: blueprint::Container) -> bool {
    &&& icons_project(dc.blueprint.icons@, c.blueprint.icons@)
    &&& entities_project(dc.blueprint.entities@, c.blueprint.entities@)
    &&& tiles_project(dc.blueprint.tiles@, c.blueprint.tiles@)
    &&& dc.blueprint.item@ == chars_to_bytes(c.blueprint.item@)
    &&& dc.blueprint.label@ == chars_to_bytes(c.blueprint.label@)
    &&& dc.blueprint.version == c.blueprint.version
}

/// Where a canonical document stands, its parts stand back to back.
pub open spec fn doc_parts(dd: Seq<u8>, c: blueprint::Container) -> bool {
    let q1 = chars_to_bytes("{\"blueprint\":{\"icons\":["@).len() as int;
    let q2 = q1 + crate::codec::icons_from(c.blueprint.icons@, 0).len();
    let q3 = q2 + 1;
    let q4 = q3 + chars_to_bytes(",\"entities\":["@).len();
    let q5 = q4 + crate::codec::entities_from(c.blueprint.entities@, 0).len();
    let q6 = q5 + 1;
    let q7 = q6 + chars_to_bytes(",\"tiles\":["@).len();
    let q8 = q7 + crate::codec::tiles_from(c.blueprint.tiles@, 0).len();
    let q9 = q8 + 1;
    let q10 = q9 + chars_to_bytes(",\"item\":"@).len();
    let q11 = q10 + quoted_bytes(c.blueprint.item@).len();
    let q12 = q11 + chars_to_bytes(",\"label\":"@).len();
    let q13 = q12 + quoted_bytes(c.blueprint.label@).len();
    let q14 = q13 + chars_to_bytes(",\"version\":"@).len();
    let q15 = q14 + dec_bytes(c.blueprint.version as int).len();
    &&& starts_at(dd, 0, chars_to_bytes("{\"blueprint\":{\"icons\":["@))
    &&& icons_at(dd, q1, c.blueprint.icons@)
    &&& starts_at(dd, q2, chars_to_bytes("]"@))
    &&& starts_at(dd, q3, chars_to_bytes(",\"entities\":["@))
    &&& entities_at(dd, q4, c.blueprint.entities@)
    &&& starts_at(dd, q5, chars_to_bytes("]"@))
    &&& starts_at(dd, q6, chars_to_bytes(",\"tiles\":["@))
    &&& tiles_at(dd, q7, c.blueprint.tiles@)
    &&& starts_at(dd, q8, chars_to_bytes("]"@))
    &&& starts_at(dd, q9, chars_to_bytes(",\"item\":"@))
    &&& quoted_at(dd, q10, c.blueprint.item@)
    &&& starts_at(dd, q11, chars_to_bytes(",\"label\":"@))
    &&& quoted_at(dd, q12, c.blueprint.label@)
    &&& starts_at(dd, q13, chars_to_bytes(",\"version\":"@))
    &&& u64_at(dd, q14, c.blueprint.version)
    &&& starts_at(dd, q15, chars_to_bytes("}}"@))
    &&& dd.len() == q15 + 2
}

/// Decompose a canonical document into its parts.
proof fn lemma_doc_shape(dd: Seq<u8>, c: blueprint::Container)
    requires
        doc_at(dd, c),
    ensures
        doc_parts(dd, c),
{
    reveal_strlit("]");
    reveal_strlit("}}");
    let a1 = chars_to_bytes("{\"blueprint\":{\"icons\":["@);
    let a2 = crate::codec::icons_from(c.blueprint.icons@, 0);
    let a3 = chars_to_bytes("]"@);
    let a4 = chars_to_bytes(",\"entities\":["@);
    let a5 = crate::codec::entities_from(c.blueprint.entities@, 0);
    let a6 = chars_to_bytes("]"@);
    let a7 = chars_to_bytes(",\"tiles\":["@);
    let a8 = crate::codec::tiles_from(c.blueprint.tiles@, 0);
    let a9 = chars_to_bytes("]"@);
    let a10 = chars_to_bytes(",\"item\":"@);
    let a11 = quoted_bytes(c.blueprint.item@);
    let a12 = chars_to_bytes(",\"label\":"@);
    let a13 = quoted_bytes(c.blueprint.label@);
    let a14 = chars_to_bytes(",\"version\":"@);
    let a15 = dec_bytes(c.blueprint.version as int);
    let a16 = chars_to_bytes("}}"@);
    assert(starts_at(dd, 0, crate::codec::doc_bytes(c)));
    lemma_starts_at_concat(
        dd,
        0,
        a1 + a2 + a3 + a4 + a5 + a6 + a7 + a8 + a9 + a10 + a11 + a12 + a13 + a14 + a15,
        a16,
    );
    lemma_starts_at_concat(
        dd,
        0,
        a1 + a2 + a3 + a4 + a5 + a6 + a7 + a8 + a9 + a10 + a11 + a12 + a13 + a14,
        a15,
    );
    lemma_starts_at_concat(
        dd,
        0,
        a1 + a2 + a3 + a4 + a5 + a6 + a7 + a8 + a9 + a10 + a11 + a12 + a13,
        a14,
    );
    lemma_starts_at_concat(dd, 0, a1 + a2 + a3 + a4 + a5 + a6 + a7 + a8 + a9 + a10 + a11 + a12, a13);
    lemma_starts_at_concat(dd, 0, a1 + a2 + a3 + a4 + a5 + a6 + a7 + a8 + a9 + a10 + a11, a12);
    lemma_starts_at_concat(dd, 0, a1 + a2 + a3 + a4 + a5 + a6 + a7 + a8 + a9 + a10, a11);
    lemma_starts_at_concat(dd, 0, a1 + a2 + a3 + a4 + a5 + a6 + a7 + a8 + a9, a10);
    lemma_starts_at_concat(dd, 0, a1 + a2 + a3 + a4 + a5 + a6 + a7 + a8, a9);
    lemma_starts_at_concat(dd, 0, a1 + a2 + a3 + a4 + a5 + a6 + a7, a8);
    lemma_starts_at_concat(dd, 0, a1 + a2 + a3 + a4 + a5 + a6, a7);
    lemma_starts_at_concat(dd, 0, a1 + a2 + a3 + a4 + a5, a6);
    lemma_starts_at_concat(dd, 0, a1 + a2 + a3 + a4, a5);
    lemma_starts_at_concat(dd, 0, a1 + a2 + a3, a4);
    lemma_starts_at_concat(dd, 0, a1 + a2, a3);
    lemma_starts_at_concat(dd, 0, a1, a2);
    assert(a3[0] == 93);
    assert(dd[(a1 + a2).len() as int + 0] == 93);
    assert(a6[0] == 93);
    assert(dd[(a1 + a2 + a3 + a4 + a5).len() as int + 0] == 93);
    assert(a9[0] == 93);
    assert(dd[(a1 + a2 + a3 + a4 + a5 + a6 + a7 + a8).len() as int + 0] == 93);
    assert(a16[0] == 125);
    assert(dd[(a1 + a2 + a3 + a4 + a5 + a6 + a7 + a8 + a9 + a10 + a11 + a12 + a13 + a14
        + a15).len() as int + 0] == 125);
}

/// Parse a whole canonical document: succeeds on the document of every
/// well-formed container and returns its projection. The entity list, tile
/// list and label may be absent from a minimal document; they then default
/// to empty.
fn parse_doc(d: &Vec<u8>) -> (r: Option<Container>)
    ensures
        forall|c: blueprint::Container|
            #[trigger] doc_at(d@, c) ==> (r matches Some(dc) && container_projects(dc, c)),
{
    proof {
        reveal_strlit("{\"blueprint\":{\"icons\":[");
        reveal_strlit("]");
        reveal_strlit(",\"entities\":[");
        reveal_strlit(",\"tiles\":[");
        reveal_strlit(",\"item\":");
        reveal_strlit(",\"label\":");
        reveal_strlit(",\"version\":");
        reveal_strlit("}}");
        assert(("{\"blueprint\":{\"icons\":[").is_ascii());
        assert(("]").is_ascii());
        assert((",\"entities\":[").is_ascii());
        assert((",\"tiles\":[").is_ascii());
        assert((",\"item\":").is_ascii());
        assert((",\"label\":").is_ascii());
        assert((",\"version\":").is_ascii());
        assert(("}}").is_ascii());
        assert forall|c: blueprint::Container| doc_at(d@, c) implies doc_parts(d@, c) by {
            lemma_doc_shape(d@, c);
        }
    }
    let p1 = match parse_lit(d, 0, "{\"blueprint\":{\"icons\":[") {
        None => {
            return None;
        },
        Some(p) => p,
    };
    let (icons, p2) = match parse_icons(d, p1) {
        None => {
            return None;
        },
        Some(x) => x,
    };
    let p3 = match parse_lit(d, p2, "]") {
        None => {
            return None;
        },
        Some(p) => p,
    };
    let (entities, p6) = match parse_lit(d, p3, ",\"entities\":[") {
        Some(q) => {
            let (es, q2) = match parse_entities(d, q) {
                None => {
                    return None;
                },
                Some(x) => x,
            };
            let q3 = match parse_lit(d, q2, "]") {
                None => {
                    return None;
                },
                Some(p) => p,
            };
            (es, q3)
        },
        None => (Vec::new(), p3),
    };
    let (tiles, p9) = match parse_lit(d, p6, ",\"tiles\":[") {
        Some(q) => {
            let (ts, q2) = match parse_tiles(d, q) {
                None => {
                    return None;
                },
                Some(x) => x,
            };
            let q3 = match parse_lit(d, q2, "]") {
                None => {
                    return None;
                },
                Some(p) => p,
            };
            (ts, q3)
        },
        None => (Vec::new(), p6),
    };
    let p10 = match parse_lit(d, p9, ",\"item\":") {
        None => {
            return None;
        },
        Some(p) => p,
    };
    let (item, p11) = match parse_quoted(d, p10) {
        None => {
            return None;
        },
        Some(x) => x,
    };
    let (label, p13) = match parse_lit(d, p11, ",\"label\":") {
        Some(q) => {
            match parse_quoted(d, q) {
                None => {
                    return None;
                },
                Some(x) => x,
            }
        },
        None => (Vec::new(), p11),
    };
    let p14 = match parse_lit(d, p13, ",\"version\":") {
        None => {
            return None;
        },
        Some(p) => p,
    };
    let (version, p15) = match parse_u64(d, p14) {
        None => {
            return None;
        },
        Some(x) => x,
    };
    let p16 = match parse_lit(d, p15, "}}") {
        None => {
            return None;
        },
        Some(p) => p,
    };
    if p16 != d.len() {
        return None;
    }
    Some(
        Container {
            blueprint: Blueprint { icons, entities, tiles, item, label, version },
        },
    )
}

/// The transport text of well-formed container `c` is exactly `sv`.
pub open spec fn transport_of(sv: Seq<char>, c: blueprint::Container) -> bool {
    crate::codec::wf_container(c) && sv == crate::codec::transport_chars(c)
}

/// Decode a transport string: strip the version marker, base64-decode,
/// inflate, and parse the document. On the transport string of any
/// well-formed container this always succeeds and returns the container's
/// projection; a failing stage is reported by name.
pub fn decode(s: &str) -> (r: Result<Container, DecodeError>)
    ensures
        forall|c: blueprint::Container|
            #[trigger] transport_of(s@, c) ==> (r matches Ok(dc) && container_projects(dc, c)),
        s@.len() == 0 ==> r == Result::<Container, DecodeError>::Err(DecodeError::Empty),
{
    let n = s.unicode_len();
    if n == 0 {
        proof {
            reveal_strlit("0");
        }
        return Err(DecodeError::Empty);
    }
    let rest = s.substring_char(1, n);
    proof {
        reveal_strlit("0");
        assert forall|c: blueprint::Container| transport_of(s@, c) implies rest@
            == crate::codec::b64_chars(
            crate::codec::zlib_bytes(crate::codec::doc_bytes(c)),
        ) by {
            assert(rest@ =~= crate::codec::b64_chars(
                crate::codec::zlib_bytes(crate::codec::doc_bytes(c)),
            ));
        }
    }
    let b = match crate::codec::b64_decode(rest) {
        None => {
            return Err(DecodeError::Base64);
        },
        Some(v) => v,
    };
    proof {
        assert forall|c: blueprint::Container| transport_of(s@, c) implies b@
            == crate::codec::zlib_bytes(crate::codec::doc_bytes(c)) by {
        }
    }
    let doc = match crate::codec::zlib_decompress(&b) {
        None => {
            return Err(DecodeError::Inflate);
        },
        Some(v) => v,
    };
    proof {
        assert forall|c: blueprint::Container| transport_of(s@, c) implies doc_at(doc@, c) by {
            assert(doc@ == crate::codec::doc_bytes(c));
        }
    }
    match parse_doc(&doc) {
        None => Err(DecodeError::Parse),
        Some(dc) => Ok(dc),
    }
}

} // verus!
