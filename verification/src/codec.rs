//! The transport codec. A layout is serialized to a canonical structured
//! document, the document's bytes are deflate-compressed at maximum level,
//! the compressed bytes are base64-encoded, and a single version-marker
//! character `'0'` is prepended. Decoding inverts each stage in the opposite
//! order.

use vstd::prelude::*;

use crate::blueprint::{direction_code, Container, Direction, Entity, Icon, SignalKind, Tile};
use crate::bytes::{chars_to_bytes, dec_bytes, push_dec_u64, push_str_bytes, wf_text};

verus! {

/// The bytes of a quoted document string.
pub open spec fn quoted_bytes(s: Seq<char>) -> Seq<u8> {
    seq![34u8] + chars_to_bytes(s) + seq![34u8]
}

/// The bytes of a position coordinate stored in half-cell units `h`: the
/// whole cells, a decimal point, and a single fraction digit (`5` for a
/// center-of-cell anchor, `0` for a whole-cell anchor).
pub open spec fn pos_bytes(h: int) -> Seq<u8> {
    dec_bytes(h / 2) + chars_to_bytes("."@) + (if h % 2 == 1 {
        chars_to_bytes("5"@)
    } else {
        chars_to_bytes("0"@)
    })
}

/// The quoted tag of an icon signal kind.
pub open spec fn signal_kind_bytes(k: SignalKind) -> Seq<u8> {
    match k {
        SignalKind::Item => chars_to_bytes("\"item\""@),
        SignalKind::Fluid => chars_to_bytes("\"fluid\""@),
        SignalKind::Virtual => chars_to_bytes("\"virtual\""@),
    }
}

/// The bytes of one serialized icon.
pub open spec fn icon_bytes(ic: Icon) -> Seq<u8> {
    chars_to_bytes("{\"signal\":{\"type\":"@) + signal_kind_bytes(ic.signal.kind) + chars_to_bytes(
        ",\"name\":"@,
    ) + quoted_bytes(ic.signal.name@) + chars_to_bytes("},\"index\":"@) + dec_bytes(
        ic.index as int,
    ) + chars_to_bytes("}"@)
}

/// The orientation suffix of a serialized entity: empty for the default
/// orientation, the direction code otherwise.
pub open spec fn dir_bytes(d: Direction) -> Seq<u8> {
    if d is North {
        Seq::empty()
    } else {
        chars_to_bytes(",\"direction\":"@) + dec_bytes(direction_code(d))
    }
}

/// The bytes of one serialized entity.
pub open spec fn entity_bytes(e: Entity) -> Seq<u8> {
    chars_to_bytes("{\"entity_number\":"@) + dec_bytes(e.entity_number as int) + chars_to_bytes(
        ",\"name\":"@,
    ) + quoted_bytes(e.name@) + chars_to_bytes(",\"position\":{\"x\":"@) + pos_bytes(
        e.position.x2 as int,
    ) + chars_to_bytes(",\"y\":"@) + pos_bytes(e.position.y2 as int) + chars_to_bytes("}"@)
        + dir_bytes(e.direction) + chars_to_bytes("}"@)
}

/// The bytes of one serialized tile.
pub open spec fn tile_bytes(t: Tile) -> Seq<u8> {
    chars_to_bytes("{\"name\":"@) + quoted_bytes(t.name@) + chars_to_bytes(
        ",\"position\":{\"x\":"@,
    ) + pos_bytes(t.position.x2 as int) + chars_to_bytes(",\"y\":"@) + pos_bytes(
        t.position.y2 as int,
    ) + chars_to_bytes("}}"@)
}

/// The bytes of the icon list elements from index `j` on, comma-separated
/// (a separator stands before every element but the first).
pub open spec fn icons_from(s: Seq<Icon>, j: int) -> Seq<u8>
    decreases s.len() - j,
{
    if j < 0 || j >= s.len() {
        Seq::empty()
    } else {
        (if j > 0 {
            chars_to_bytes(","@)
        } else {
            Seq::empty()
        }) + icon_bytes(s[j]) + icons_from(s, j + 1)
    }
}

/// The bytes of the entity list elements from index `j` on.
pub open spec fn entities_from(s: Seq<Entity>, j: int) -> Seq<u8>
    decreases s.len() - j,
{
    if j < 0 || j >= s.len() {
        Seq::empty()
    } else {
        (if j > 0 {
            chars_to_bytes(","@)
        } else {
            Seq::empty()
        }) + entity_bytes(s[j]) + entities_from(s, j + 1)
    }
}

/// The bytes of the tile list elements from index `j` on.
pub open spec fn tiles_from(s: Seq<Tile>, j: int) -> Seq<u8>
    decreases s.len() - j,
{
    if j < 0 || j >= s.len() {
        Seq::empty()
    } else {
        (if j > 0 {
            chars_to_bytes(","@)
        } else {
            Seq::empty()
        }) + tile_bytes(s[j]) + tiles_from(s, j + 1)
    }
}

/// The canonical structured document for a container, byte for byte.
pub open spec fn doc_bytes(c: Container) -> Seq<u8> {
    chars_to_bytes("{\"blueprint\":{\"icons\":["@) + icons_from(c.blueprint.icons@, 0)
        + chars_to_bytes("]"@) + chars_to_bytes(",\"entities\":["@) + entities_from(
        c.blueprint.entities@,
        0,
    ) + chars_to_bytes("]"@) + chars_to_bytes(",\"tiles\":["@) + tiles_from(
        c.blueprint.tiles@,
        0,
    ) + chars_to_bytes("]"@) + chars_to_bytes(",\"item\":"@) + quoted_bytes(c.blueprint.item@)
        + chars_to_bytes(",\"label\":"@) + quoted_bytes(c.blueprint.label@) + chars_to_bytes(
        ",\"version\":"@,
    ) + dec_bytes(c.blueprint.version as int) + chars_to_bytes("}}"@)
}

/// Every string that is serialized into the document can stand between
/// quotes as-is.
pub open spec fn wf_container(c: Container) -> bool {
    &&& wf_text(c.blueprint.item@)
    &&& wf_text(c.blueprint.label@)
    &&& forall|k: int|
        0 <= k < c.blueprint.icons@.len() ==> wf_text((#[trigger] c.blueprint.icons@[k]).signal.name@)
    &&& forall|k: int|
        0 <= k < c.blueprint.entities@.len() ==> wf_text((#[trigger] c.blueprint.entities@[k]).name@)
    &&& forall|k: int|
        0 <= k < c.blueprint.tiles@.len() ==> wf_text((#[trigger] c.blueprint.tiles@[k]).name@)
}

/// A layout assembled from grids of well-formed names, with the fixed
/// metadata, is itself a well-formed container: its transport string can
/// always be decoded back to its projection.
pub proof fn lemma_built_container_wf(
    c: Container,
    eg: Seq<Seq<Seq<char>>>,
    tg: Seq<Seq<Seq<char>>>,
)
    requires
        crate::blueprint::entities_match(c.blueprint.entities@, eg),
        crate::blueprint::tiles_match(c.blueprint.tiles@, tg),
        c.blueprint.icons@.len() == 1,
        c.blueprint.icons@[0].signal.name@ == "stone-wall"@,
        c.blueprint.item@ == "blueprint"@,
        c.blueprint.label@ == "Generated Blueprint"@,
        forall|i: int, j: int|
            0 <= i < eg.len() && 0 <= j < eg[i].len() ==> wf_text(#[trigger] eg[i][j]),
        forall|i: int, j: int|
            0 <= i < tg.len() && 0 <= j < tg[i].len() ==> wf_text(#[trigger] tg[i][j]),
    ensures
        wf_container(c),
{
    reveal_strlit("stone-wall");
    reveal_strlit("blueprint");
    reveal_strlit("Generated Blueprint");
    crate::blueprint::lemma_grid_names_wf(eg, eg.len() as int);
    crate::blueprint::lemma_grid_names_wf(tg, tg.len() as int);
    assert forall|k: int| 0 <= k < c.blueprint.entities@.len() implies wf_text(
        (#[trigger] c.blueprint.entities@[k]).name@,
    ) by {
        assert(crate::blueprint::entity_matches(
            c.blueprint.entities@[k],
            crate::blueprint::all_cells(eg)[k],
            k,
        ));
    }
    assert forall|k: int| 0 <= k < c.blueprint.tiles@.len() implies wf_text(
        (#[trigger] c.blueprint.tiles@[k]).name@,
    ) by {
        assert(crate::blueprint::tile_matches(
            c.blueprint.tiles@[k],
            crate::blueprint::all_cells(tg)[k],
        ));
    }
}

/// What a compressed byte sequence holds: the result of flate2's zlib
/// deflate at compression level 9, a pure function of the input bytes.
pub uninterp spec fn zlib_bytes(data: Seq<u8>) -> Seq<u8>;

/// What a base64 text holds: the padded standard-alphabet base64 encoding
/// of the input bytes, a pure function of them.
pub uninterp spec fn b64_chars(data: Seq<u8>) -> Seq<char>;

/// Relies on flate2's `ZlibEncoder`: writing all input and finishing yields
/// the zlib stream for these bytes at the chosen level, a deterministic
/// function of the input (level 9 here). Writing into a `Vec` sink cannot
/// fail.
#[verifier::external_body]
pub(crate) fn zlib_compress(data: &Vec<u8>) -> (r: Vec<u8>)
    ensures
        r@ == zlib_bytes(data@),
{
    let mut encoder = flate2::write::ZlibEncoder::new(Vec::new(), flate2::Compression::new(9));
    std::io::Write::write_all(&mut encoder, data.as_slice()).unwrap();
    encoder.finish().unwrap()
}

/// Relies on flate2's `ZlibDecoder`: inflating inverts deflation, so on the
/// zlib stream of some bytes it returns exactly those bytes; on other input
/// it may fail.
#[verifier::external_body]
pub(crate) fn zlib_decompress(data: &Vec<u8>) -> (r: Option<Vec<u8>>)
    ensures
        r is Some <== exists|b: Seq<u8>| data@ == zlib_bytes(b),
        r matches Some(v) ==> forall|b: Seq<u8>| data@ == zlib_bytes(b) ==> v@ == b,
{
    let mut decoder = flate2::read::ZlibDecoder::new(data.as_slice());
    let mut out = Vec::new();
    match std::io::Read::read_to_end(&mut decoder, &mut out) {
        Ok(_) => Some(out),
        Err(_) => None,
    }
}

/// Relies on `base64::encode`: the padded standard-alphabet encoding of the
/// input bytes, a deterministic function of them, and ASCII text.
#[verifier::external_body]
pub(crate) fn b64_encode(data: &Vec<u8>) -> (r: String)
    ensures
        r@ == b64_chars(data@),
        r.is_ascii(),
{
    base64::encode(data)
}

/// Relies on `base64::decode`: decoding inverts encoding, so on the base64
/// text of some bytes it returns exactly those bytes; on other input it may
/// fail.
#[verifier::external_body]
pub(crate) fn b64_decode(s: &str) -> (r: Option<Vec<u8>>)
    ensures
        r is Some <== exists|b: Seq<u8>| s@ == b64_chars(b),
        r matches Some(v) ==> forall|b: Seq<u8>| s@ == b64_chars(b) ==> v@ == b,
{
    base64::decode(s).ok()
}

/// The complete transport text of a container: the version marker `'0'`
/// followed by the base64 of the deflated canonical document.
pub open spec fn transport_chars(c: Container) -> Seq<char> {
    "0"@ + b64_chars(zlib_bytes(doc_bytes(c)))
}

/// The transport string of every container begins with the version marker
/// character `'0'`.
pub proof fn lemma_version_marker(c: Container)
    ensures
        transport_chars(c).len() >= 1,
        transport_chars(c)[0] == '0',
{
    reveal_strlit("0");
    assert(transport_chars(c)[0] == "0"@[0]);
}

/// Append a quoted string.
fn write_quoted(out: &mut Vec<u8>, s: &str)
    ensures
        final(out)@ == old(out)@ + quoted_bytes(s@),
{
    push_str_bytes(out, "\"");
    push_str_bytes(out, s);
    push_str_bytes(out, "\"");
    proof {
        reveal_strlit("\"");
        assert(chars_to_bytes("\""@) =~= seq![34u8]);
        assert(final(out)@ =~= old(out)@ + quoted_bytes(s@));
    }
}

/// Append a position coordinate given in half-cell units.
fn write_pos(out: &mut Vec<u8>, h: u64)
    ensures
        final(out)@ == old(out)@ + pos_bytes(h as int),
{
    push_dec_u64(out, h / 2);
    push_str_bytes(out, ".");
    if h % 2 == 1 {
        push_str_bytes(out, "5");
    } else {
        push_str_bytes(out, "0");
    }
    proof {
        assert(final(out)@ =~= old(out)@ + pos_bytes(h as int));
    }
}

/// Append one serialized icon.
fn write_icon(out: &mut Vec<u8>, ic: &Icon)
    ensures
        final(out)@ == old(out)@ + icon_bytes(*ic),
{
    push_str_bytes(out, "{\"signal\":{\"type\":");
    match ic.signal.kind {
        SignalKind::Item => push_str_bytes(out, "\"item\""),
        SignalKind::Fluid => push_str_bytes(out, "\"fluid\""),
        SignalKind::Virtual => push_str_bytes(out, "\"virtual\""),
    }
    push_str_bytes(out, ",\"name\":");
    write_quoted(out, ic.signal.name);
    push_str_bytes(out, "},\"index\":");
    push_dec_u64(out, ic.index as u64);
    push_str_bytes(out, "}");
    proof {
        assert(final(out)@ =~= old(out)@ + icon_bytes(*ic));
    }
}

/// Append one serialized entity.
fn write_entity(out: &mut Vec<u8>, e: &Entity)
    ensures
        final(out)@ == old(out)@ + entity_bytes(*e),
{
    push_str_bytes(out, "{\"entity_number\":");
    push_dec_u64(out, e.entity_number as u64);
    push_str_bytes(out, ",\"name\":");
    write_quoted(out, e.name);
    push_str_bytes(out, ",\"position\":{\"x\":");
    write_pos(out, e.position.x2);
    push_str_bytes(out, ",\"y\":");
    write_pos(out, e.position.y2);
    push_str_bytes(out, "}");
    if !e.direction.should_skip() {
        push_str_bytes(out, ",\"direction\":");
        push_dec_u64(out, e.direction.code() as u64);
    }
    push_str_bytes(out, "}");
    proof {
        assert(final(out)@ =~= old(out)@ + entity_bytes(*e));
    }
}

/// Append one serialized tile.
fn write_tile(out: &mut Vec<u8>, t: &Tile)
    ensures
        final(out)@ == old(out)@ + tile_bytes(*t),
{
    push_str_bytes(out, "{\"name\":");
    write_quoted(out, t.name);
    push_str_bytes(out, ",\"position\":{\"x\":");
    write_pos(out, t.position.x2);
    push_str_bytes(out, ",\"y\":");
    write_pos(out, t.position.y2);
    push_str_bytes(out, "}}");
    proof {
        assert(final(out)@ =~= old(out)@ + tile_bytes(*t));
    }
}

/// Append the comma-separated icon list.
fn write_icons(out: &mut Vec<u8>, icons: &Vec<Icon>)
    ensures
        final(out)@ == old(out)@ + icons_from(icons@, 0),
{
    let mut j: usize = 0;
    while j < icons.len()
        invariant
            0 <= j <= icons@.len(),
            out@ + icons_from(icons@, j as int) == old(out)@ + icons_from(icons@, 0),
        decreases icons@.len() - j,
    {
        let ghost before = out@;
        if j > 0 {
            push_str_bytes(out, ",");
        }
        write_icon(out, &icons[j]);
        proof {
            assert(out@ + icons_from(icons@, j + 1) =~= before + icons_from(icons@, j as int));
        }
        j = j + 1;
    }
    proof {
        assert(out@ + icons_from(icons@, icons@.len() as int) =~= out@);
    }
}

/// Append the comma-separated entity list.
fn write_entities(out: &mut Vec<u8>, entities: &Vec<Entity>)
    ensures
        final(out)@ == old(out)@ + entities_from(entities@, 0),
{
    let mut j: usize = 0;
    while j < entities.len()
        invariant
            0 <= j <= entities@.len(),
            out@ + entities_from(entities@, j as int) == old(out)@ + entities_from(entities@, 0),
        decreases entities@.len() - j,
    {
        let ghost before = out@;
        if j > 0 {
            push_str_bytes(out, ",");
        }
        write_entity(out, &entities[j]);
        proof {
            assert(out@ + entities_from(entities@, j + 1) =~= before + entities_from(
                entities@,
                j as int,
            ));
        }
        j = j + 1;
    }
    proof {
        assert(out@ + entities_from(entities@, entities@.len() as int) =~= out@);
    }
}

/// Append the comma-separated tile list.
fn write_tiles(out: &mut Vec<u8>, tiles: &Vec<Tile>)
    ensures
        final(out)@ == old(out)@ + tiles_from(tiles@, 0),
{
    let mut j: usize = 0;
    while j < tiles.len()
        invariant
            0 <= j <= tiles@.len(),
            out@ + tiles_from(tiles@, j as int) == old(out)@ + tiles_from(tiles@, 0),
        decreases tiles@.len() - j,
    {
        let ghost before = out@;
        if j > 0 {
            push_str_bytes(out, ",");
        }
        write_tile(out, &tiles[j]);
        proof {
            assert(out@ + tiles_from(tiles@, j + 1) =~= before + tiles_from(tiles@, j as int));
        }
        j = j + 1;
    }
    proof {
        assert(out@ + tiles_from(tiles@, tiles@.len() as int) =~= out@);
    }
}

/// Serialize a container to its canonical structured document.
pub fn doc_to_bytes(c: &Container) -> (r: Vec<u8>)
    ensures
        r@ == doc_bytes(*c),
{
    let mut out: Vec<u8> = Vec::new();
    push_str_bytes(&mut out, "{\"blueprint\":{\"icons\":[");
    write_icons(&mut out, &c.blueprint.icons);
    push_str_bytes(&mut out, "]");
    push_str_bytes(&mut out, ",\"entities\":[");
    write_entities(&mut out, &c.blueprint.entities);
    push_str_bytes(&mut out, "]");
    push_str_bytes(&mut out, ",\"tiles\":[");
    write_tiles(&mut out, &c.blueprint.tiles);
    push_str_bytes(&mut out, "]");
    push_str_bytes(&mut out, ",\"item\":");
    write_quoted(&mut out, c.blueprint.item);
    push_str_bytes(&mut out, ",\"label\":");
    write_quoted(&mut out, c.blueprint.label);
    push_str_bytes(&mut out, ",\"version\":");
    push_dec_u64(&mut out, c.blueprint.version);
    push_str_bytes(&mut out, "}}");
    proof {
        assert(out@ =~= doc_bytes(*c));
    }
    out
}

impl Container {
    /// Encode the layout into its transport string: serialize the canonical
    /// document, deflate it at maximum level, base64-encode the result, and
    /// prepend the version marker `'0'`.
    pub fn encode(&self) -> (r: String)
        ensures
            r@ == transport_chars(*self),
    {
        let doc = doc_to_bytes(self);
        let compressed = zlib_compress(&doc);
        let encoded = b64_encode(&compressed);
        let mut result = String::from_str("0");
        result.append(encoded.as_str());
        proof {
            assert(result@ =~= transport_chars(*self));
        }
        result
    }
}

} // verus!
