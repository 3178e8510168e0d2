use crate::bytes::{copy_range, le16, le16_at, push_all, push_le16, read_le16};
use crate::error::{ErrorKind, McStreamError};
use vstd::prelude::*;
use vstd::utf8::{decode_utf8, encode_utf8, valid_utf8};

verus! {

broadcast use {vstd::utf8::encode_utf8_valid_utf8, vstd::utf8::encode_utf8_decode_utf8};

/// True when the marker "minecraft:air" starts at byte `i` of `s`.
pub open spec fn air_marker_at(s: Seq<u8>, i: int) -> bool {
    &&& 0 <= i
    &&& i + 13 <= s.len()
    &&& s[i] == 109u8 && s[i + 1] == 105u8 && s[i + 2] == 110u8 && s[i + 3] == 101u8
    &&& s[i + 4] == 99u8 && s[i + 5] == 114u8 && s[i + 6] == 97u8 && s[i + 7] == 102u8
    &&& s[i + 8] == 116u8 && s[i + 9] == 58u8 && s[i + 10] == 97u8 && s[i + 11] == 105u8
    &&& s[i + 12] == 114u8
}

/// True when a block-type id contains the air marker "minecraft:air".
pub open spec fn is_air_id(id: Seq<char>) -> bool {
    exists|i: int| air_marker_at(encode_utf8(id), i)
}

/// True when no id of the palette is air-marked.
pub open spec fn palette_air_free(p: Seq<Seq<char>>) -> bool {
    forall|k: int| 0 <= k < p.len() ==> !is_air_id(#[trigger] p[k])
}

/// True when every id of the palette fits the length field, and the count fits too.
pub open spec fn palette_fits(p: Seq<Seq<char>>) -> bool {
    &&& p.len() <= 65535
    &&& forall|k: int| 0 <= k < p.len() ==> #[trigger] encode_utf8(p[k]).len() <= 65535
}

/// One id on the wire: its UTF-8 length, then its UTF-8 bytes.
pub open spec fn entry_bytes(id: Seq<char>) -> Seq<u8> {
    le16(encode_utf8(id).len() as int) + encode_utf8(id)
}

/// The ids of a palette on the wire, one after another.
pub open spec fn entries_bytes(p: Seq<Seq<char>>) -> Seq<u8>
    decreases p.len(),
{
    if p.len() == 0 {
        seq![]
    } else {
        entries_bytes(p.drop_last()) + entry_bytes(p.last())
    }
}

/// A palette on the wire: the number of ids, then the ids.
pub open spec fn palette_bytes(p: Seq<Seq<char>>) -> Seq<u8> {
    le16(p.len() as int) + entries_bytes(p)
}

/// Reads one id at `p`.
pub open spec fn parse_entry(s: Seq<u8>, p: int) -> Result<(Seq<char>, int), ErrorKind> {
    if p + 2 > s.len() {
        Err(ErrorKind::Validation)
    } else {
        let n = le16_at(s, p);
        if p + 2 + n > s.len() {
            Err(ErrorKind::Validation)
        } else {
            let b = s.subrange(p + 2, p + 2 + n);
            if !valid_utf8(b) {
                Err(ErrorKind::Palette)
            } else if is_air_id(decode_utf8(b)) {
                Err(ErrorKind::AirInPalette)
            } else {
                Ok((decode_utf8(b), p + 2 + n))
            }
        }
    }
}

/// Reads `n` ids one after another from `p`.
pub open spec fn parse_entries(s: Seq<u8>, p: int, n: nat) -> Result<
    (Seq<Seq<char>>, int),
    ErrorKind,
>
    decreases n,
{
    if n == 0 {
        Ok((seq![], p))
    } else {
        match parse_entries(s, p, (n - 1) as nat) {
            Err(e) => Err(e),
            Ok((ids, q)) => match parse_entry(s, q) {
                Err(e) => Err(e),
                Ok((id, q2)) => Ok((ids.push(id), q2)),
            },
        }
    }
}

/// Reads a palette at `p`: the count, then that many ids.
pub open spec fn parse_palette(s: Seq<u8>, p: int) -> Result<(Seq<Seq<char>>, int), ErrorKind> {
    if p < 0 || p + 2 > s.len() {
        Err(ErrorKind::Validation)
    } else {
        parse_entries(s, p + 2, le16_at(s, p) as nat)
    }
}

/// Once reading the first `i` ids fails, reading more ids fails the same way.
pub proof fn lemma_entries_err_persists(s: Seq<u8>, p: int, i: nat, m: nat)
    requires
        i <= m,
        parse_entries(s, p, i) is Err,
    ensures
        parse_entries(s, p, m) == parse_entries(s, p, i),
    decreases m - i,
{
    if i < m {
        lemma_entries_err_persists(s, p, i, (m - 1) as nat);
    }
}

/// An id written at `q` reads back as itself.
pub proof fn lemma_entry_round_trip(s: Seq<u8>, q: int, id: Seq<char>)
    requires
        0 <= q,
        q + entry_bytes(id).len() <= s.len(),
        s.subrange(q, q + entry_bytes(id).len()) == entry_bytes(id),
        !is_air_id(id),
        encode_utf8(id).len() <= 65535,
    ensures
        parse_entry(s, q) == Ok::<(Seq<char>, int), ErrorKind>((id, q + entry_bytes(id).len())),
{
    let e = entry_bytes(id);
    let n = encode_utf8(id).len() as int;
    crate::bytes::lemma_le16_round_trip(n);
    assert(s[q] == e[0]);
    assert(s[q + 1] == e[1]);
    assert(le16_at(s, q) == le16_at(le16(n), 0));
    assert(s.subrange(q + 2, q + 2 + n) =~= e.subrange(2, 2 + n));
    assert(e.subrange(2, 2 + n) =~= encode_utf8(id));
}

/// Ids written one after another at `p` read back as themselves.
pub proof fn lemma_entries_round_trip(s: Seq<u8>, p: int, ids: Seq<Seq<char>>)
    requires
        0 <= p,
        p + entries_bytes(ids).len() <= s.len(),
        s.subrange(p, p + entries_bytes(ids).len()) == entries_bytes(ids),
        palette_air_free(ids),
        palette_fits(ids),
    ensures
        parse_entries(s, p, ids.len()) == Ok::<(Seq<Seq<char>>, int), ErrorKind>(
            (ids, p + entries_bytes(ids).len()),
        ),
    decreases ids.len(),
{
    if ids.len() > 0 {
        let init = ids.drop_last();
        let last = ids.last();
        let a = entries_bytes(init);
        let b = entry_bytes(last);
        let t = s.subrange(p, p + entries_bytes(ids).len());
        assert(t == a + b);
        assert(s.subrange(p, p + a.len()) =~= t.subrange(0, a.len() as int));
        assert(t.subrange(0, a.len() as int) =~= a);
        assert(palette_air_free(init)) by {
            assert forall|k: int| 0 <= k < init.len() implies !is_air_id(#[trigger] init[k]) by {
                assert(init[k] == ids[k]);
            }
        }
        assert(palette_fits(init)) by {
            assert forall|k: int| 0 <= k < init.len() implies #[trigger] encode_utf8(
                init[k],
            ).len() <= 65535 by {
                assert(init[k] == ids[k]);
            }
        }
        lemma_entries_round_trip(s, p, init);
        let q = p + a.len();
        assert(s.subrange(q, (q + b.len()) as int) =~= t.subrange(a.len() as int, (a.len() + b.len()) as int));
        assert(t.subrange(a.len() as int, (a.len() + b.len()) as int) =~= b);
        assert(!is_air_id(ids[ids.len() - 1]));
        assert(encode_utf8(ids[ids.len() - 1]).len() <= 65535);
        lemma_entry_round_trip(s, q, last);
        assert(init.push(last) =~= ids);
        assert(entries_bytes(ids) == a + b);
        assert(parse_entries(s, p, ids.len()) == (match parse_entries(s, p, init.len()) {
            Err(e) => Err(e),
            Ok((v, q1)) => match parse_entry(s, q1) {
                Err(e) => Err(e),
                Ok((id, q2)) => Ok((v.push(id), q2)),
            },
        }));
    } else {
        assert(ids =~= Seq::<Seq<char>>::empty());
    }
}

/// A palette written at `p` reads back as itself.
pub proof fn lemma_palette_round_trip(s: Seq<u8>, p: int, ids: Seq<Seq<char>>)
    requires
        0 <= p,
        p + palette_bytes(ids).len() <= s.len(),
        s.subrange(p, p + palette_bytes(ids).len()) == palette_bytes(ids),
        palette_air_free(ids),
        palette_fits(ids),
    ensures
        parse_palette(s, p) == Ok::<(Seq<Seq<char>>, int), ErrorKind>(
            (ids, p + palette_bytes(ids).len()),
        ),
{
    let t = s.subrange(p, p + palette_bytes(ids).len());
    let e = entries_bytes(ids);
    crate::bytes::lemma_le16_round_trip(ids.len() as int);
    assert(s[p] == t[0]);
    assert(s[p + 1] == t[1]);
    assert(le16_at(s, p) == ids.len());
    assert(s.subrange(p + 2, (p + 2 + e.len()) as int) =~= t.subrange(2, (2 + e.len()) as int));
    assert(t.subrange(2, (2 + e.len()) as int) =~= e);
    lemma_entries_round_trip(s, p + 2, ids);
}

/// Relies on `String::from_utf8`: it succeeds exactly on valid UTF-8 and then holds the
/// characters those bytes encode.
#[verifier::external_body]
fn string_from_utf8(b: Vec<u8>) -> (r: Option<String>)
    ensures
        r is Some <==> valid_utf8(b@),
        r matches Some(s) ==> s@ == decode_utf8(b@),
{
    String::from_utf8(b).ok()
}

/// True when the marker "minecraft:air" starts at byte `i`.
fn air_marker_at_exec(s: &[u8], i: usize) -> (r: bool)
    requires
        i + 13 <= s@.len(),
    ensures
        r == air_marker_at(s@, i as int),
{
    s[i] == 109 && s[i + 1] == 105 && s[i + 2] == 110 && s[i + 3] == 101 && s[i + 4] == 99 && s[i
        + 5] == 114 && s[i + 6] == 97 && s[i + 7] == 102 && s[i + 8] == 116 && s[i + 9] == 58
        && s[i + 10] == 97 && s[i + 11] == 105 && s[i + 12] == 114
}

/// True when the id contains the air marker "minecraft:air".
pub fn is_air(id: &str) -> (r: bool)
    ensures
        r == is_air_id(id@),
{
    let b = id.as_bytes();
    let n = b.len();
    if n < 13 {
        return false;
    }
    let mut i: usize = 0;
    while i <= n - 13
        invariant
            13 <= n,
            i <= n,
            n == b@.len(),
            b@ == encode_utf8(id@),
            forall|j: int| 0 <= j < i ==> !#[trigger] air_marker_at(b@, j),
        decreases n - i,
    {
        if air_marker_at_exec(b, i) {
            return true;
        }
        i = i + 1;
    }
    assert forall|j: int| !#[trigger] air_marker_at(b@, j) by {
        if 0 <= j && j < i {
        }
    }
    false
}

/// Rejects a palette that holds an air-marked id.
pub fn validate_palette(palette: &[String]) -> (r: Result<(), McStreamError>)
    ensures
        r is Ok <==> palette_air_free(palette_view_of(palette@)),
        r matches Err(e) ==> e is AirInPalette,
{
    let mut i: usize = 0;
    while i < palette.len()
        invariant
            i <= palette@.len(),
            forall|k: int| 0 <= k < i ==> !is_air_id(#[trigger] palette@[k]@),
        decreases palette@.len() - i,
    {
        if is_air(palette[i].as_str()) {
            assert(palette_view_of(palette@)[i as int] == palette@[i as int]@);
            return Err(McStreamError::AirInPalette);
        }
        i = i + 1;
    }
    assert forall|k: int| 0 <= k < palette_view_of(palette@).len() implies !is_air_id(
        #[trigger] palette_view_of(palette@)[k],
    ) by {
        assert(palette_view_of(palette@)[k] == palette@[k]@);
    }
    Ok(())
}

/// The ids of a palette, as character sequences.
pub open spec fn palette_view_of(p: Seq<String>) -> Seq<Seq<char>> {
    crate::types::palette_view(p)
}

/// Checks that the palette and each id fit their 16-bit length fields.
fn check_palette_fits(palette: &[String]) -> (r: bool)
    ensures
        r == palette_fits(palette_view_of(palette@)),
{
    if palette.len() > 65535 {
        return false;
    }
    let mut i: usize = 0;
    while i < palette.len()
        invariant
            i <= palette@.len() <= 65535,
            forall|k: int| 0 <= k < i ==> #[trigger] encode_utf8(palette@[k]@).len() <= 65535,
        decreases palette@.len() - i,
    {
        if palette[i].as_str().as_bytes().len() > 65535 {
            assert(palette_view_of(palette@)[i as int] == palette@[i as int]@);
            return false;
        }
        i = i + 1;
    }
    assert forall|k: int| 0 <= k < palette_view_of(palette@).len() implies #[trigger] encode_utf8(
        palette_view_of(palette@)[k],
    ).len() <= 65535 by {
        assert(palette_view_of(palette@)[k] == palette@[k]@);
    }
    true
}

/// Appends a palette: its count, then each id as a length-prefixed UTF-8 string.
/// Nothing is written when the palette is rejected.
pub fn write_palette(out: &mut Vec<u8>, palette: &[String]) -> (r: Result<(), McStreamError>)
    ensures
        r matches Err(e) ==> final(out)@ == old(out)@,
        r is Ok <==> palette_air_free(palette_view_of(palette@)) && palette_fits(
            palette_view_of(palette@),
        ),
        !palette_air_free(palette_view_of(palette@)) <==> r matches Err(
            McStreamError::AirInPalette,
        ),
        palette_air_free(palette_view_of(palette@)) && !palette_fits(palette_view_of(palette@))
            <==> r matches Err(McStreamError::PaletteError(_)),
        r is Ok ==> final(out)@ == old(out)@ + palette_bytes(palette_view_of(palette@)),
{
    match validate_palette(palette) {
        Ok(()) => {},
        Err(e) => {
            return Err(e);
        },
    }
    if !check_palette_fits(palette) {
        return Err(McStreamError::PaletteError("palette or one of its ids is too long".to_string()));
    }
    let ghost start = out@;
    let ghost pv = palette_view_of(palette@);
    push_le16(out, palette.len() as u16);
    let mut i: usize = 0;
    while i < palette.len()
        invariant
            i <= palette@.len() <= 65535,
            pv == palette_view_of(palette@),
            palette_fits(pv),
            out@ == start + le16(pv.len() as int) + entries_bytes(pv.subrange(0, i as int)),
        decreases palette@.len() - i,
    {
        let b = palette[i].as_str().as_bytes();
        assert(pv[i as int] == palette@[i as int]@);
        assert(encode_utf8(pv[i as int]).len() <= 65535);
        push_le16(out, b.len() as u16);
        push_all(out, b);
        proof {
            let pre = pv.subrange(0, i as int + 1);
            assert(pre.drop_last() =~= pv.subrange(0, i as int));
            assert(pre.last() == pv[i as int]);
        }
        i = i + 1;
        assert(out@ =~= start + le16(pv.len() as int) + entries_bytes(pv.subrange(0, i as int)));
    }
    assert(pv.subrange(0, pv.len() as int) =~= pv);
    Ok(())
}

/// Reads a palette at `pos`, returning its ids and the position just after it.
pub fn read_palette(data: &[u8], pos: usize) -> (r: Result<(Vec<String>, usize), McStreamError>)
    ensures
        match parse_palette(data@, pos as int) {
            Ok((ids, end)) => r matches Ok((v, e)) && palette_view_of(v@) == ids && e == end,
            Err(k) => r matches Err(e) && e.kind() == k,
        },
{
    if pos > data.len() || data.len() - pos < 2 {
        return Err(McStreamError::ValidationError("palette count is truncated".to_string()));
    }
    let count = read_le16(data, pos);
    let mut p: usize = pos + 2;
    let mut ids: Vec<String> = Vec::new();
    let mut i: u16 = 0;
    assert(palette_view_of(ids@) =~= Seq::<Seq<char>>::empty());
    while i < count
        invariant
            pos + 2 <= data@.len(),
            count == le16_at(data@, pos as int),
            i <= count,
            parse_entries(data@, pos + 2, i as nat) == Ok::<(Seq<Seq<char>>, int), ErrorKind>(
                (palette_view_of(ids@), p as int),
            ),
            p <= data@.len(),
        decreases count - i,
    {
        if data.len() - p < 2 {
            proof {
                lemma_entries_err_persists(data@, pos + 2, (i + 1) as nat, count as nat);
            }
            return Err(McStreamError::ValidationError("palette id length is truncated".to_string()));
        }
        let n = read_le16(data, p);
        if data.len() - p - 2 < n as usize {
            proof {
                lemma_entries_err_persists(data@, pos + 2, (i + 1) as nat, count as nat);
            }
            return Err(McStreamError::ValidationError("palette id is truncated".to_string()));
        }
        let raw = copy_range(data, p + 2, p + 2 + n as usize);
        let id = match string_from_utf8(raw) {
            Some(s) => s,
            None => {
                proof {
                    lemma_entries_err_persists(data@, pos + 2, (i + 1) as nat, count as nat);
                }
                return Err(McStreamError::PaletteError("palette id is not UTF-8".to_string()));
            },
        };
        if is_air(id.as_str()) {
            proof {
                lemma_entries_err_persists(data@, pos + 2, (i + 1) as nat, count as nat);
            }
            return Err(McStreamError::AirInPalette);
        }
        let ghost old_ids = ids@;
        ids.push(id);
        p = p + 2 + n as usize;
        i = i + 1;
        assert(palette_view_of(ids@) =~= palette_view_of(old_ids).push(ids@.last()@));
    }
    Ok((ids, p))
}

/// The distinct ids that are not air-marked, in the order they are first seen.
pub open spec fn first_seen(ids: Seq<Seq<char>>) -> Seq<Seq<char>>
    decreases ids.len(),
{
    if ids.len() == 0 {
        seq![]
    } else {
        let before = first_seen(ids.drop_last());
        if is_air_id(ids.last()) || before.contains(ids.last()) {
            before
        } else {
            before.push(ids.last())
        }
    }
}

proof fn lemma_first_seen_grows(ids: Seq<Seq<char>>, i: int)
    requires
        0 <= i <= ids.len(),
    ensures
        first_seen(ids.subrange(0, i)).len() <= first_seen(ids).len(),
    decreases ids.len() - i,
{
    if i < ids.len() {
        lemma_first_seen_grows(ids, i + 1);
        assert(ids.subrange(0, i + 1).drop_last() =~= ids.subrange(0, i));
    } else {
        assert(ids.subrange(0, i) =~= ids);
    }
}

/// The distinct ids that are not air-marked.
pub open spec fn non_air_ids(ids: Seq<Seq<char>>) -> Set<Seq<char>> {
    ids.to_set().filter(|x: Seq<char>| !is_air_id(x))
}

/// A palette built in first-seen order lists every non-air id once and nothing else, so its
/// length is the number of distinct non-air ids.
pub proof fn lemma_first_seen_counts_distinct(ids: Seq<Seq<char>>)
    ensures
        first_seen(ids).no_duplicates(),
        first_seen(ids).to_set() == non_air_ids(ids),
        first_seen(ids).len() == non_air_ids(ids).len(),
    decreases ids.len(),
{
    let fs = first_seen(ids);
    if ids.len() == 0 {
        assert(fs.to_set() =~= non_air_ids(ids));
    } else {
        let init = ids.drop_last();
        let x = ids.last();
        lemma_first_seen_counts_distinct(init);
        let fs0 = first_seen(init);
        assert forall|y: Seq<char>| ids.contains(y) <==> init.contains(y) || y == x by {
            if ids.contains(y) {
                let k = choose|k: int| 0 <= k < ids.len() && ids[k] == y;
                if k < ids.len() - 1 {
                    assert(init[k] == y);
                }
            }
            if init.contains(y) {
                let k = choose|k: int| 0 <= k < init.len() && init[k] == y;
                assert(ids[k] == y);
            }
            if y == x {
                assert(ids[ids.len() - 1] == y);
            }
        }
        if is_air_id(x) || fs0.contains(x) {
            if fs0.contains(x) {
                assert(fs0.to_set().contains(x));
            }
            assert(fs.to_set() =~= non_air_ids(ids));
        } else {
            assert(fs == fs0.push(x));
            assert forall|a: int, b: int| 0 <= a < b < fs.len() implies fs[a] != fs[b] by {
                if b == fs.len() - 1 {
                    assert(fs[a] == fs0[a]);
                }
            }
            assert forall|y: Seq<char>| fs.to_set().contains(y) <==> fs0.to_set().contains(y) || y
                == x by {
                if fs.contains(y) {
                    let k = choose|k: int| 0 <= k < fs.len() && fs[k] == y;
                    if k < fs0.len() {
                        assert(fs0[k] == y);
                    }
                }
                if fs0.contains(y) {
                    let k = choose|k: int| 0 <= k < fs0.len() && fs0[k] == y;
                    assert(fs[k] == y);
                }
                if y == x {
                    assert(fs[fs.len() - 1] == y);
                }
            }
            assert(fs.to_set() =~= non_air_ids(ids));
        }
    }
    fs.unique_seq_to_set();
}

/// The position of `id` among `ids`, if present.
fn position_of(ids: &Vec<String>, id: &String) -> (r: Option<usize>)
    ensures
        r matches Some(k) ==> k < ids@.len() && ids@[k as int]@ == id@,
        r is None ==> !palette_view_of(ids@).contains(id@),
{
    let mut k: usize = 0;
    while k < ids.len()
        invariant
            k <= ids@.len(),
            forall|j: int| 0 <= j < k ==> (#[trigger] ids@[j])@ != id@,
        decreases ids@.len() - k,
    {
        if ids[k] == *id {
            return Some(k);
        }
        k = k + 1;
    }
    assert forall|j: int| 0 <= j < palette_view_of(ids@).len() implies #[trigger] palette_view_of(
        ids@,
    )[j] != id@ by {
        assert(palette_view_of(ids@)[j] == ids@[j]@);
    }
    None
}

/// Builds a palette from a list of ids: the distinct ids that are not air-marked, in the
/// order first seen, with each id paired with its index. Fails when there would be more
/// than 65535 entries.
pub fn create_palette(block_ids: &[String]) -> (r: Result<(Vec<String>, Vec<(String, u16)>), McStreamError>)
    ensures
        first_seen(palette_view_of(block_ids@)).len() > 65535 <==> r is Err,
        r matches Err(e) ==> e is PaletteError,
        r matches Ok((ids, index)) ==> palette_view_of(ids@) == first_seen(
            palette_view_of(block_ids@),
        ) && index@.len() == ids@.len() && forall|k: int|
            0 <= k < index@.len() ==> (#[trigger] index@[k]).0@ == ids@[k]@ && index@[k].1 == k,
{
    let ghost all = palette_view_of(block_ids@);
    let mut unique_ids: Vec<String> = Vec::new();
    let mut id_to_index: Vec<(String, u16)> = Vec::new();
    let mut i: usize = 0;
    assert(all.subrange(0, 0) =~= Seq::<Seq<char>>::empty());
    assert(palette_view_of(unique_ids@) =~= Seq::<Seq<char>>::empty());
    while i < block_ids.len()
        invariant
            all == palette_view_of(block_ids@),
            i <= block_ids@.len(),
            palette_view_of(unique_ids@) == first_seen(all.subrange(0, i as int)),
            unique_ids@.len() <= 65535,
            id_to_index@.len() == unique_ids@.len(),
            forall|k: int|
                0 <= k < id_to_index@.len() ==> (#[trigger] id_to_index@[k]).0@ == unique_ids@[k]@
                    && id_to_index@[k].1 == k,
        decreases block_ids@.len() - i,
    {
        let id = &block_ids[i];
        let ghost pre = all.subrange(0, i as int + 1);
        proof {
            assert(pre.drop_last() =~= all.subrange(0, i as int));
            assert(pre.last() == id@);
            assert(all[i as int] == block_ids@[i as int]@);
        }
        if !is_air(id.as_str()) {
            match position_of(&unique_ids, id) {
                Some(k) => {
                    assert(palette_view_of(unique_ids@)[k as int] == id@);
                },
                None => {
                    if unique_ids.len() >= 65535 {
                        proof {
                            lemma_first_seen_grows(all, i + 1);
                        }
                        return Err(McStreamError::PaletteError("more than 65535 distinct ids".to_string()));
                    }
                    let index = unique_ids.len() as u16;
                    let ghost before = unique_ids@;
                    unique_ids.push(id.clone());
                    id_to_index.push((id.clone(), index));
                    assert(palette_view_of(unique_ids@) =~= palette_view_of(before).push(id@));
                },
            }
        }
        i = i + 1;
    }
    assert(all.subrange(0, all.len() as int) =~= all);
    Ok((unique_ids, id_to_index))
}

} // verus!
