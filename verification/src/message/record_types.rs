//! Domain names and the record data types with structure of their own.
use vstd::prelude::*;
use vstd::slice::slice_to_vec;
use vstd::utf8::{decode_utf8, encode_utf8, valid_utf8};

use crate::message::compress::{strings_view, table_get, table_insert, Labels, NameOffsets};
use crate::message::wire::{be16, be32, push_u16, push_u32, read_u16, read_u32, read_u8, u16_at, u32_at};
use crate::message::{label_wire, push_bytes, write_label, DecodeError};

verus! {

// ---------- Text from the wire ----------

/// What `String::from_utf8_lossy` makes of a byte string.
pub uninterp spec fn utf8_lossy(bytes: Seq<u8>) -> Seq<char>;

/// The text a label's bytes are read as: their UTF-8 decoding when they are
/// valid UTF-8, else what `from_utf8_lossy` makes of them.
pub open spec fn label_text(bytes: Seq<u8>) -> Seq<char> {
    if valid_utf8(bytes) {
        decode_utf8(bytes)
    } else {
        utf8_lossy(bytes)
    }
}

/// `String::from_utf8_lossy`, made into an owned `String`: the text of the
/// bytes, with each ill-formed sequence replaced by U+FFFD. Claimed: bytes
/// that are valid UTF-8 are decoded as they are, with no replacement; other
/// bytes give `utf8_lossy` of them, which is left unstated.
#[verifier::external_body]
fn string_from_utf8_lossy(bytes: &[u8]) -> (s: String)
    ensures
        valid_utf8(bytes@) ==> s@ == decode_utf8(bytes@),
        !valid_utf8(bytes@) ==> s@ == utf8_lossy(bytes@),
{
    String::from_utf8_lossy(bytes).into_owned()
}

// ---------- Name handling ----------

/// A domain name as an ordered list of labels, e.g. "example.com" -> ["example", "com"]
#[derive(Debug, PartialEq, Eq, Hash)]
pub struct Name(pub Vec<String>);

impl Clone for Name {
    fn clone(&self) -> (r: Name)
        ensures
            r@ == self@,
    {
        Name(copy_labels(self.0.as_slice()))
    }
}

impl View for Name {
    type V = Seq<Seq<char>>;

    open spec fn view(&self) -> Seq<Seq<char>> {
        self.0@.map_values(|s: String| s@)
    }
}

/// Each label as `from_utf8_lossy` reads it.
pub open spec fn lossy_labels(raw: Seq<Seq<u8>>) -> Seq<Seq<char>> {
    raw.map_values(|b: Seq<u8>| label_text(b))
}

/// The name parser, one step at a time: from `cursor`, with the raw labels
/// read so far, the pointer hops taken so far and, once a pointer has been
/// followed, the position just past the first pointer (`post`, else -1).
/// The result is the raw labels and where the caller resumes.
pub open spec fn name_walk(
    buf: Seq<u8>,
    cursor: int,
    labels: Seq<Seq<u8>>,
    hops: int,
    post: int,
) -> Result<(Seq<Seq<u8>>, int), DecodeError>
    decreases 258 - hops - labels.len(),
{
    if !(0 <= hops <= 128 && labels.len() <= 128) {
        Err(DecodeError::NameTooLong)
    } else if cursor < 0 || cursor >= buf.len() {
        Err(DecodeError::UnexpectedEof)
    } else {
        let len = buf[cursor];
        if len == 0 {
            Ok((labels, if post >= 0 { post } else { cursor + 1 }))
        } else if len >= 0xC0 {
            if cursor + 1 >= buf.len() {
                Err(DecodeError::UnexpectedEof)
            } else {
                let offset = (len - 0xC0) * 256 + buf[cursor + 1];
                let post2 = if post >= 0 { post } else { cursor + 2 };
                if hops + 1 > 128 {
                    Err(DecodeError::TooManyPointerHops)
                } else if offset >= buf.len() {
                    Err(DecodeError::BadPointerOffset)
                } else {
                    name_walk(buf, offset, labels, hops + 1, post2)
                }
            }
        } else if len < 0x40 {
            let end = cursor + 1 + len;
            if end > buf.len() {
                Err(DecodeError::UnexpectedEof)
            } else if labels.len() + 1 > 128 {
                Err(DecodeError::NameTooLong)
            } else {
                name_walk(buf, end, labels.push(buf.subrange(cursor + 1, end)), hops, post)
            }
        } else {
            Err(DecodeError::LabelTooLong)
        }
    }
}

/// Decoding a name at `pos`: its raw labels and the position after it.
pub open spec fn parse_name_raw(buf: Seq<u8>, pos: int) -> Result<(Seq<Seq<u8>>, int), DecodeError> {
    name_walk(buf, pos, seq![], 0, -1)
}

impl Name {
    /// The labels of a name given as text: none for "" and "."; otherwise the
    /// text without its trailing dots, split at each dot.
    pub open spec fn from_str_spec(s: Seq<char>) -> Labels {
        if s.len() == 0 || s == seq!['.'] {
            seq![]
        } else {
            choose|ls: Labels| is_dot_split(ls, trim_dots(s))
        }
    }

    /// Parses dotted text: "" and "." are the root (no labels); otherwise
    /// trailing dots are dropped and the rest is split at each dot.
    #[verifier::spinoff_prover]
    #[verifier::rlimit(30)]
    pub fn from_str(s: &str) -> (n: Name)
        ensures
            n@ == Name::from_str_spec(s@),
            (s@.len() == 0 || s@ == seq!['.']) ==> n@.len() == 0,
            !(s@.len() == 0 || s@ == seq!['.']) ==> is_dot_split(n@, trim_dots(s@)),
    {
        let chars = chars_of(s);
        if chars.len() == 0 || (chars.len() == 1 && chars[0] == '.') {
            assert(chars@.len() == 1 ==> chars@ =~= seq![chars@[0]]);
            let n = Name(Vec::new());
            assert(n@ =~= Seq::<Seq<char>>::empty());
            assert(n@ == Name::from_str_spec(s@));
            return n;
        }
        let mut end = chars.len();
        assert(chars@.take(end as int) =~= s@);
        assert(!(s@.len() == 0 || s@ == seq!['.']));
        while end > 0 && chars[end - 1] == '.'
            invariant
                end <= chars@.len(),
                chars@ == s@,
                trim_dots(s@) == trim_dots(chars@.take(end as int)),
            decreases end,
        {
            assert(chars@.take(end as int).drop_last() =~= chars@.take(end - 1));
            end = end - 1;
        }
        assert(trim_dots(chars@.take(end as int)) == chars@.take(end as int));
        let ghost t = chars@.take(end as int);
        let mut labels: Vec<String> = Vec::new();
        let mut piece_start: usize = 0;
        let mut i: usize = 0;
        let ghost mut pieces: Labels = seq![seq![]];
        while i < end
            invariant
                end <= chars@.len(),
                chars@ == s@,
                t == chars@.take(end as int),
                piece_start <= i <= end,
                pieces.len() >= 1,
                pieces.len() == labels@.len() + 1,
                strings_view(labels@) == pieces.drop_last(),
                pieces.last() == chars@.subrange(piece_start as int, i as int),
                join_dots(pieces) == chars@.take(i as int),
                forall|k: int| 0 <= k < pieces.len() ==> has_no_dot(#[trigger] pieces[k]),
            decreases end - i,
        {
            if chars[i] == '.' {
                let label = s.substring_char(piece_start, i).to_owned();
                let ghost old_pieces = pieces;
                let ghost old_labels = labels@;
                labels.push(label);
                proof {
                    lemma_join_push_empty(pieces);
                    pieces = pieces.push(seq![]);
                    assert(strings_view(labels@) =~= strings_view(old_labels).push(label@));
                    assert(pieces.drop_last() =~= old_pieces);
                    assert(old_pieces =~= old_pieces.drop_last().push(old_pieces.last()));
                    assert(strings_view(labels@) =~= pieces.drop_last());
                    assert(chars@.take(i + 1) =~= chars@.take(i as int) + seq!['.']);
                }
                piece_start = i + 1;
            } else {
                proof {
                    let c = chars@[i as int];
                    lemma_join_push_piece(pieces, pieces.last(), c);
                    let old_pieces = pieces;
                    pieces = pieces.drop_last().push(pieces.last() + seq![c]);
                    assert(pieces.drop_last() =~= old_pieces.drop_last());
                    assert(chars@.take(i + 1) =~= chars@.take(i as int) + seq![c]);
                    assert(pieces.last() =~= chars@.subrange(piece_start as int, i + 1));
                    assert forall|k: int| 0 <= k < pieces.len() implies has_no_dot(
                        #[trigger] pieces[k],
                    ) by {
                        if k < pieces.len() - 1 {
                            assert(pieces[k] == old_pieces[k]);
                        } else {
                            assert(has_no_dot(old_pieces[k]));
                        }
                    }
                }
            }
            i = i + 1;
        }
        let last = s.substring_char(piece_start, end).to_owned();
        let ghost old_labels = labels@;
        labels.push(last);
        assert(strings_view(labels@) =~= strings_view(old_labels).push(last@));
        assert(strings_view(labels@) =~= pieces);
        let n = Name(labels);
        proof {
            assert(is_dot_split(n@, trim_dots(s@)));
            let c = choose|ls: Labels| is_dot_split(ls, trim_dots(s@));
            lemma_dot_split_unique(c, n@, trim_dots(s@));
        }
        n
    }

    /// The root is "."; any other name is its labels joined by dots.
    pub fn to_string(&self) -> (r: String)
        ensures
            r@ == name_text(self@),
    {
        if self.0.len() == 0 {
            let r = String::from_str(".");
            proof {
                reveal_strlit(".");
            }
            assert(r@ =~= seq!['.']);
            return r;
        }
        let mut r = self.0[0].clone();
        let mut i: usize = 1;
        while i < self.0.len()
            invariant
                1 <= i <= self.0@.len(),
                r@ == join_dots(self@.take(i as int)),
            decreases self.0@.len() - i,
        {
            let ghost before = r@;
            r.append(".");
            proof {
                reveal_strlit(".");
            }
            r.append(self.0[i].as_str());
            assert(self@.take(i + 1).drop_last() =~= self@.take(i as int));
            assert(r@ =~= join_dots(self@.take(i + 1)));
            i = i + 1;
        }
        assert(self@.take(self.0@.len() as int) =~= self@);
        r
    }

    /// Encodes with compression: reuses the longest suffix found in
    /// `name_offsets`, else writes the name in full and records its suffixes.
    pub fn encode(&self, out: &mut Vec<u8>, name_offsets: &mut NameOffsets)
        requires
            old(name_offsets).wf(),
        ensures
            final(name_offsets).wf(),
            final(out)@ == old(out)@ + name_wire(self@, old(name_offsets)@),
            final(name_offsets)@ == name_table(self@, old(name_offsets)@, old(out)@.len() as int),
    {
        let ghost v = self@;
        let ghost t0 = name_offsets@;
        let n = self.0.len();
        let mut start: usize = 0;
        loop
            invariant
                n == self.0@.len(),
                v == self@,
                v.len() == n,
                t0 == name_offsets@,
                name_offsets.wf(),
                start <= n,
                out@ == old(out)@,
                first_match(v, t0, 0) == first_match(v, t0, start as int),
            ensures
                first_match(v, t0, 0) is None,
                out@ == old(out)@,
                name_offsets@ == t0,
                name_offsets.wf(),
            decreases n - start,
        {
            if start < n {
                let suffix = labels_range(self.0.as_slice(), start, n);
                assert(strings_view(suffix@) =~= suffix_from(v, start as int));
                if let Some(offset) = name_offsets.get(suffix) {
                    let mut i: usize = 0;
                    while i < start
                        invariant
                            start <= n,
                            n == self.0@.len(),
                            v == self@,
                            i <= start,
                            out@ == old(out)@ + labels_wire(v.take(i as int)),
                        decreases start - i,
                    {
                        proof {
                            lemma_labels_wire_step(v, i as int);
                        }
                        write_label(out, self.0[i].as_str());
                        i = i + 1;
                    }
                    push_u16(out, 0xC000u16 | offset);
                    return ;
                }
            }
            if start == n {
                assert(first_match(v, t0, n as int + 1) is None);
                break ;
            }
            start = start + 1;
        }
        let mut offset_cursor: usize = out.len();
        let mut i: usize = 0;
        while i < n
            invariant
                n == self.0@.len(),
                v == self@,
                v.len() == n,
                i <= n,
                name_offsets.wf(),
                out@ == old(out)@ + labels_wire(v.take(i as int)),
                offset_cursor == out@.len(),
                record_suffixes(v, t0, old(out)@.len() as int, 0) == record_suffixes(
                    v,
                    name_offsets@,
                    offset_cursor as int,
                    i as int,
                ),
            decreases n - i,
        {
            if offset_cursor <= 0x3FFF {
                let key = copy_labels(labels_range(self.0.as_slice(), i, n));
                assert(strings_view(key@) =~= suffix_from(v, i as int));
                name_offsets.insert(key, offset_cursor as u16);
            }
            proof {
                lemma_labels_wire_step(v, i as int);
            }
            write_label(out, self.0[i].as_str());
            offset_cursor = out.len();
            i = i + 1;
        }
        assert(v.take(n as int) =~= v);
        out.push(0);
    }

    pub fn decode(buf: &[u8], pos: &mut usize) -> (res: Result<Name, DecodeError>)
        ensures
            match parse_name_raw(buf@, *old(pos) as int) {
                Ok((raw, next)) => res is Ok && res->Ok_0@ == lossy_labels(raw) && *final(pos)
                    == next,
                Err(e) => res == Err::<Name, DecodeError>(e) && *final(pos) == *old(pos),
            },
    {
        let mut labels: Vec<String> = Vec::new();
        let ghost mut raw: Seq<Seq<u8>> = seq![];
        let mut cursor: usize = *pos;
        let mut jumped = false;
        let mut post_pointer_pos: usize = 0;
        let mut hops: u32 = 0;
        let ghost start = *pos as int;

        loop
            invariant
                name_walk(buf@, cursor as int, raw, hops as int, if jumped {
                    post_pointer_pos as int
                } else {
                    -1
                }) == parse_name_raw(buf@, start),
                start == *pos,
                start == *old(pos),
                labels@.map_values(|s: String| s@) == lossy_labels(raw),
                hops <= 128,
                raw.len() <= 128,
                raw.len() == labels@.len(),
            decreases 258 - hops - raw.len(),
        {
            if cursor >= buf.len() {
                return Err(DecodeError::UnexpectedEof);
            }
            let len = buf[cursor];
            if len == 0 {
                *pos = if jumped {
                    post_pointer_pos
                } else {
                    cursor + 1
                };
                return Ok(Name(labels));
            } else if len & 0xC0 == 0xC0 {
                // Pointer: 2 bytes, top two bits are 11, remaining 14 bits are the offset.
                assert(len & 0xC0 == 0xC0 ==> len >= 0xC0) by (bit_vector);
                if cursor + 1 >= buf.len() {
                    return Err(DecodeError::UnexpectedEof);
                }
                let b2 = buf[cursor + 1];
                let offset: usize = (((len & 0x3F) as usize) << 8usize) | (b2 as usize);
                assert(offset == (len - 0xC0) * 256 + b2) by (bit_vector)
                    requires
                        len >= 0xC0,
                        offset == (((len & 0x3F) as usize) << 8usize) | (b2 as usize),
                ;
                if !jumped {
                    post_pointer_pos = cursor + 2;
                    jumped = true;
                }
                hops = hops + 1;
                if hops > 128 {
                    return Err(DecodeError::TooManyPointerHops);
                }
                if offset >= buf.len() {
                    return Err(DecodeError::BadPointerOffset);
                }
                cursor = offset;
            } else if len & 0xC0 == 0 {
                assert(len & 0xC0 != 0xC0 ==> len < 0xC0) by (bit_vector);
                assert(len & 0xC0 == 0 ==> len < 0x40) by (bit_vector);
                // Regular label, up to 63 bytes.
                let len = len as usize;
                let start_l = cursor + 1;
                if len > buf.len() - start_l {
                    return Err(DecodeError::UnexpectedEof);
                }
                let end = start_l + len;
                let label = string_from_utf8_lossy(slice_range(buf, start_l, end));
                let ghost old_labels = labels@;
                let ghost old_raw = raw;
                proof {
                    raw = raw.push(buf@.subrange(start_l as int, end as int));
                }
                labels.push(label);
                assert(labels@.map_values(|s: String| s@) =~= lossy_labels(raw)) by {
                    assert(labels@ == old_labels.push(label));
                    assert(old_labels.map_values(|s: String| s@) == lossy_labels(old_raw));
                    assert forall|i: int| 0 <= i < labels@.len() implies labels@.map_values(
                        |s: String| s@,
                    )[i] == lossy_labels(raw)[i] by {
                        if i < old_labels.len() {
                            assert(old_labels.map_values(|s: String| s@)[i] == lossy_labels(
                                old_raw,
                            )[i]);
                        }
                    }
                }
                cursor = end;
                if labels.len() > 128 {
                    return Err(DecodeError::NameTooLong);
                }
            } else {
                assert(len & 0xC0 != 0xC0 && len & 0xC0 != 0 ==> 0x40 <= len < 0xC0) by (bit_vector);
                return Err(DecodeError::LabelTooLong);
            }
        }
    }
}

/// The labels written one after another, without a terminator.
pub open spec fn labels_wire(ls: Labels) -> Seq<u8>
    decreases ls.len(),
{
    if ls.len() == 0 {
        seq![]
    } else {
        labels_wire(ls.drop_last()) + label_wire(ls.last())
    }
}

/// The labels from `start` to the end.
pub open spec fn suffix_from(ls: Labels, start: int) -> Labels {
    ls.subrange(start, ls.len() as int)
}

/// The first start index, from `start` on, whose (non-empty) suffix the
/// table holds, with the offset it holds for it: the longest suffix of the
/// name already written, the whole name included.
pub open spec fn first_match(ls: Labels, t: Seq<(Labels, u16)>, start: int) -> Option<(int, u16)>
    decreases ls.len() + 1 - start,
{
    if start < 0 || start > ls.len() {
        None
    } else if start < ls.len() && table_get(t, suffix_from(ls, start)) is Some {
        Some((start, table_get(t, suffix_from(ls, start))->Some_0))
    } else {
        first_match(ls, t, start + 1)
    }
}

/// The table after recording, from label `i` on, each suffix at the offset
/// where it starts (`cursor` for label `i`), as long as the offset fits in
/// fourteen bits.
pub open spec fn record_suffixes(ls: Labels, t: Seq<(Labels, u16)>, cursor: int, i: int) -> Seq<
    (Labels, u16),
>
    decreases ls.len() - i,
{
    if i < 0 || i >= ls.len() {
        t
    } else {
        let t2 = if cursor <= 0x3FFF {
            table_insert(t, suffix_from(ls, i), cursor as u16)
        } else {
            t
        };
        record_suffixes(ls, t2, cursor + label_wire(ls[i]).len(), i + 1)
    }
}

/// The bytes a name is written as: if some suffix is in the table, the
/// labels before the longest such suffix and a pointer to it (just the
/// pointer when the whole name is there); else every label and a zero octet.
pub open spec fn name_wire(ls: Labels, t: Seq<(Labels, u16)>) -> Seq<u8> {
    match first_match(ls, t, 0) {
        Some((s, off)) => labels_wire(ls.take(s)) + be16(0xC000u16 | off),
        None => labels_wire(ls) + seq![0u8],
    }
}

/// The table after writing a name that starts at offset `base`.
pub open spec fn name_table(ls: Labels, t: Seq<(Labels, u16)>, base: int) -> Seq<(Labels, u16)> {
    match first_match(ls, t, 0) {
        Some(_) => t,
        None => record_suffixes(ls, t, base, 0),
    }
}

pub proof fn lemma_labels_wire_step(ls: Labels, i: int)
    requires
        0 <= i < ls.len(),
    ensures
        labels_wire(ls.take(i + 1)) == labels_wire(ls.take(i)) + label_wire(ls[i]),
{
    assert(ls.take(i + 1).drop_last() =~= ls.take(i));
}

/// `&v[start..end]`.
pub fn labels_range(v: &[String], start: usize, end: usize) -> (s: &[String])
    requires
        start <= end <= v@.len(),
    ensures
        s@ == v@.subrange(start as int, end as int),
{
    &v[start..end]
}

/// A copy of each label.
pub fn copy_labels(v: &[String]) -> (r: Vec<String>)
    ensures
        r@ == v@,
{
    let mut r: Vec<String> = Vec::new();
    let mut i: usize = 0;
    while i < v.len()
        invariant
            i <= v@.len(),
            r@ == v@.subrange(0, i as int),
        decreases v@.len() - i,
    {
        r.push(v[i].clone());
        i = i + 1;
        assert(r@ =~= v@.subrange(0, i as int));
    }
    assert(v@.subrange(0, v@.len() as int) =~= v@);
    r
}

// ---------- Names as text ----------

/// `s` without its trailing dots.
pub open spec fn trim_dots(s: Seq<char>) -> Seq<char>
    decreases s.len(),
{
    if s.len() > 0 && s.last() == '.' {
        trim_dots(s.drop_last())
    } else {
        s
    }
}

/// The labels joined with a dot between each two.
pub open spec fn join_dots(ls: Labels) -> Seq<char>
    decreases ls.len(),
{
    if ls.len() == 0 {
        seq![]
    } else if ls.len() == 1 {
        ls[0]
    } else {
        join_dots(ls.drop_last()) + seq!['.'] + ls.last()
    }
}

pub open spec fn has_no_dot(l: Seq<char>) -> bool {
    forall|i: int| 0 <= i < l.len() ==> l[i] != '.'
}

/// `ls` is what splitting `s` at each dot gives: the pieces, in order, with
/// no dot inside any of them.
pub open spec fn is_dot_split(ls: Labels, s: Seq<char>) -> bool {
    &&& ls.len() >= 1
    &&& join_dots(ls) == s
    &&& forall|i: int| 0 <= i < ls.len() ==> has_no_dot(#[trigger] ls[i])
}

/// The text a name is written as: "." for the root, else its labels joined by dots.
pub open spec fn name_text(ls: Labels) -> Seq<char> {
    if ls.len() == 0 {
        seq!['.']
    } else {
        join_dots(ls)
    }
}

proof fn lemma_join_one_no_dot(ls: Labels)
    requires
        ls.len() >= 1,
        forall|i: int| 0 <= i < ls.len() ==> has_no_dot(#[trigger] ls[i]),
    ensures
        ls.len() == 1 <==> has_no_dot(join_dots(ls)),
        ls.len() > 1 ==> join_dots(ls)[join_dots(ls).len() - ls.last().len() - 1] == '.',
        ls.len() > 1 ==> join_dots(ls).len() == join_dots(ls.drop_last()).len() + 1 + ls.last().len(),
{
    if ls.len() > 1 {
        let j = join_dots(ls);
        let k = join_dots(ls.drop_last()).len();
        assert(j[k as int] == '.');
    }
}

/// Splitting text at its dots has one result only.
pub proof fn lemma_dot_split_unique(a: Labels, b: Labels, s: Seq<char>)
    requires
        is_dot_split(a, s),
        is_dot_split(b, s),
    ensures
        a == b,
    decreases a.len() + b.len(),
{
    lemma_join_one_no_dot(a);
    lemma_join_one_no_dot(b);
    if a.len() == 1 || b.len() == 1 {
        assert(a.len() == 1 && b.len() == 1);
        assert(a =~= b);
    } else {
        let la = a.last();
        let lb = b.last();
        assert(has_no_dot(la));
        assert(has_no_dot(lb));
        if la.len() < lb.len() {
            let k = s.len() - la.len() - 1;
            assert(s[k] == '.');
            let off = k - (s.len() - lb.len());
            assert(s.subrange(s.len() - lb.len(), s.len() as int) =~= lb);
            assert(lb[off] == s[k]);
        } else if lb.len() < la.len() {
            let k = s.len() - lb.len() - 1;
            assert(s[k] == '.');
            let off = k - (s.len() - la.len());
            assert(s.subrange(s.len() - la.len(), s.len() as int) =~= la);
            assert(la[off] == s[k]);
        }
        assert(la.len() == lb.len());
        let n = s.len() - la.len() - 1;
        assert(s.subrange(n + 1, s.len() as int) =~= la);
        assert(s.subrange(n + 1, s.len() as int) =~= lb);
        assert(s.subrange(0, n) =~= join_dots(a.drop_last()));
        assert(s.subrange(0, n) =~= join_dots(b.drop_last()));
        let s2 = s.subrange(0, n);
        assert forall|i: int| 0 <= i < a.drop_last().len() implies has_no_dot(#[trigger] a.drop_last()[i]) by {
            assert(has_no_dot(a[i]));
        }
        assert forall|i: int| 0 <= i < b.drop_last().len() implies has_no_dot(#[trigger] b.drop_last()[i]) by {
            assert(has_no_dot(b[i]));
        }
        lemma_dot_split_unique(a.drop_last(), b.drop_last(), s2);
        assert(a =~= a.drop_last().push(la));
        assert(b =~= b.drop_last().push(lb));
    }
}

/// The characters of `s`.
fn chars_of(s: &str) -> (v: Vec<char>)
    ensures
        v@ == s@,
{
    let n = s.unicode_len();
    let mut v: Vec<char> = Vec::new();
    let mut i: usize = 0;
    while i < n
        invariant
            n == s@.len(),
            i <= n,
            v@ == s@.subrange(0, i as int),
        decreases n - i,
    {
        v.push(s.get_char(i));
        i = i + 1;
        assert(v@ =~= s@.subrange(0, i as int));
    }
    assert(s@.subrange(0, n as int) =~= s@);
    v
}

proof fn lemma_join_push_piece(ls: Labels, last: Seq<char>, c: char)
    requires
        ls.len() >= 1,
    ensures
        join_dots(ls.drop_last().push(ls.last() + seq![c])) == join_dots(ls) + seq![c],
{
    let ls2 = ls.drop_last().push(ls.last() + seq![c]);
    assert(ls2.drop_last() =~= ls.drop_last());
    if ls.len() == 1 {
        assert(join_dots(ls2) == ls2[0]);
    } else {
        assert(join_dots(ls2) == join_dots(ls.drop_last()) + seq!['.'] + (ls.last() + seq![c]));
        assert(join_dots(ls2) =~= join_dots(ls) + seq![c]);
    }
}

proof fn lemma_join_push_empty(ls: Labels)
    requires
        ls.len() >= 1,
    ensures
        join_dots(ls.push(seq![])) == join_dots(ls) + seq!['.'],
{
    let ls2 = ls.push(seq![]);
    assert(ls2.drop_last() =~= ls);
    assert(join_dots(ls2) =~= join_dots(ls) + seq!['.']);
}

/// `&buf[start..end]`.
pub fn slice_range(buf: &[u8], start: usize, end: usize) -> (s: &[u8])
    requires
        start <= end <= buf@.len(),
    ensures
        s@ == buf@.subrange(start as int, end as int),
{
    &buf[start..end]
}


// ---------- Encoder state ----------

/// The compression table's contents.
pub type Table = Seq<(Labels, u16)>;

/// Writing a name onto `st` (bytes so far, table so far).
pub open spec fn enc_name(st: (Seq<u8>, Table), ls: Labels) -> (Seq<u8>, Table) {
    (st.0 + name_wire(ls, st.1), name_table(ls, st.1, st.0.len() as int))
}

/// Decoding a name at `pos`: its labels as text and the position after it.
pub open spec fn parse_name(buf: Seq<u8>, pos: int) -> Result<(Labels, int), DecodeError> {
    match parse_name_raw(buf, pos) {
        Ok((raw, next)) => Ok((lossy_labels(raw), next)),
        Err(e) => Err(e),
    }
}

// ---------- SOA ----------

#[derive(Debug, PartialEq, Eq, Hash)]
pub struct SOARecord {
    pub mname: Name,
    pub rname: Name,
    pub serial: u32,
    pub refresh: u32,
    pub retry: u32,
    pub expire: u32,
    pub minimum: u32,
}

pub struct SoaView {
    pub mname: Labels,
    pub rname: Labels,
    pub serial: u32,
    pub refresh: u32,
    pub retry: u32,
    pub expire: u32,
    pub minimum: u32,
}

impl View for SOARecord {
    type V = SoaView;

    open spec fn view(&self) -> SoaView {
        SoaView {
            mname: self.mname@,
            rname: self.rname@,
            serial: self.serial,
            refresh: self.refresh,
            retry: self.retry,
            expire: self.expire,
            minimum: self.minimum,
        }
    }
}

/// The five timer fields, in wire order.
pub open spec fn soa_numbers(soa: SoaView) -> Seq<u8> {
    be32(soa.serial) + be32(soa.refresh) + be32(soa.retry) + be32(soa.expire) + be32(soa.minimum)
}

pub open spec fn enc_soa(st: (Seq<u8>, Table), soa: SoaView) -> (Seq<u8>, Table) {
    let s2 = enc_name(enc_name(st, soa.mname), soa.rname);
    (s2.0 + soa_numbers(soa), s2.1)
}

pub open spec fn parse_soa(buf: Seq<u8>, pos: int) -> Result<(SoaView, int), DecodeError> {
    match parse_name(buf, pos) {
        Err(e) => Err(e),
        Ok((m, p1)) => match parse_name(buf, p1) {
            Err(e) => Err(e),
            Ok((r, p2)) => if p2 + 20 <= buf.len() {
                Ok(
                    (
                        SoaView {
                            mname: m,
                            rname: r,
                            serial: u32_at(buf, p2),
                            refresh: u32_at(buf, p2 + 4),
                            retry: u32_at(buf, p2 + 8),
                            expire: u32_at(buf, p2 + 12),
                            minimum: u32_at(buf, p2 + 16),
                        },
                        p2 + 20,
                    ),
                )
            } else {
                Err(DecodeError::UnexpectedEof)
            },
        },
    }
}

impl Clone for SOARecord {
    fn clone(&self) -> (r: SOARecord)
        ensures
            r@ == self@,
    {
        SOARecord {
            mname: self.mname.clone(),
            rname: self.rname.clone(),
            serial: self.serial,
            refresh: self.refresh,
            retry: self.retry,
            expire: self.expire,
            minimum: self.minimum,
        }
    }
}

impl SOARecord {
    pub fn encode(&self, out: &mut Vec<u8>, name_offsets: &mut NameOffsets)
        requires
            old(name_offsets).wf(),
        ensures
            final(name_offsets).wf(),
            (final(out)@, final(name_offsets)@) == enc_soa((old(out)@, old(name_offsets)@), self@),
    {
        self.mname.encode(out, name_offsets);
        self.rname.encode(out, name_offsets);
        let ghost mid = out@;
        push_u32(out, self.serial);
        push_u32(out, self.refresh);
        push_u32(out, self.retry);
        push_u32(out, self.expire);
        push_u32(out, self.minimum);
        assert(out@ =~= mid + soa_numbers(self@));
    }

    /// Decodes an SOA record's data at `*p`. On failure `*p` is not specified.
    pub fn decode(buf: &[u8], p: &mut usize) -> (res: Result<SOARecord, DecodeError>)
        ensures
            match parse_soa(buf@, *old(p) as int) {
                Ok((v, next)) => res is Ok && res->Ok_0@ == v && *final(p) == next,
                Err(e) => res == Err::<SOARecord, DecodeError>(e),
            },
    {
        let mname = Name::decode(buf, p)?;
        let rname = Name::decode(buf, p)?;
        let serial = read_u32(buf, p)?;
        let refresh = read_u32(buf, p)?;
        let retry = read_u32(buf, p)?;
        let expire = read_u32(buf, p)?;
        let minimum = read_u32(buf, p)?;
        Ok(SOARecord { mname, rname, serial, refresh, retry, expire, minimum })
    }
}

// ---------- TXT ----------

#[derive(Debug, PartialEq, Eq, Hash)]
pub struct TxtRecord(pub Vec<String>);

impl Clone for TxtRecord {
    fn clone(&self) -> (r: TxtRecord)
        ensures
            r@ == self@,
    {
        TxtRecord(copy_labels(self.0.as_slice()))
    }
}

impl View for TxtRecord {
    type V = Labels;

    open spec fn view(&self) -> Labels {
        strings_view(self.0@)
    }
}

/// Every string is at most 255 bytes long, so its length fits its length octet.
pub open spec fn txt_strings_fit(strings: Labels) -> bool {
    forall|i: int| 0 <= i < strings.len() ==> encode_utf8(#[trigger] strings[i]).len() <= 255
}

/// The character-strings of a TXT record between `pos` and `end`, raw.
pub open spec fn parse_txt_raw(buf: Seq<u8>, pos: int, end: int) -> Result<Seq<Seq<u8>>, DecodeError>
    decreases end - pos,
{
    if pos >= end {
        Ok(seq![])
    } else if pos < 0 || pos >= buf.len() {
        Err(DecodeError::UnexpectedEof)
    } else {
        let start = pos + 1;
        let stop = start + buf[pos];
        if stop > end {
            Err(DecodeError::UnexpectedEof)
        } else {
            match parse_txt_raw(buf, stop, end) {
                Ok(rest) => Ok(seq![buf.subrange(start, stop)] + rest),
                Err(e) => Err(e),
            }
        }
    }
}

/// Decoding TXT data of `rdlength` bytes at `pos`.
pub open spec fn parse_txt(buf: Seq<u8>, pos: int, rdlength: int) -> Result<(Labels, int), DecodeError> {
    if pos + rdlength > buf.len() {
        Err(DecodeError::UnexpectedEof)
    } else {
        match parse_txt_raw(buf, pos, pos + rdlength) {
            Ok(raw) => Ok((lossy_labels(raw), pos + rdlength)),
            Err(e) => Err(e),
        }
    }
}

proof fn lemma_lossy_labels_append(a: Seq<Seq<u8>>, b: Seq<Seq<u8>>)
    ensures
        lossy_labels(a + b) == lossy_labels(a) + lossy_labels(b),
{
    assert(lossy_labels(a + b) =~= lossy_labels(a) + lossy_labels(b));
}

impl TxtRecord {
    /// Writes each string with its length octet.
    pub fn encode(&self, out: &mut Vec<u8>)
        requires
            txt_strings_fit(self@),
        ensures
            final(out)@ == old(out)@ + labels_wire(self@),
    {
        let mut i: usize = 0;
        while i < self.0.len()
            invariant
                i <= self.0@.len(),
                txt_strings_fit(self@),
                out@ == old(out)@ + labels_wire(self@.take(i as int)),
            decreases self.0@.len() - i,
        {
            proof {
                lemma_labels_wire_step(self@, i as int);
            }
            write_label(out, self.0[i].as_str());
            i = i + 1;
        }
        assert(self@.take(self.0@.len() as int) =~= self@);
    }

    /// Decodes the character-strings in the `rdlength` bytes at `*p`. On
    /// failure `*p` is not specified.
    pub fn decode(buf: &[u8], p: &mut usize, rdlength: usize) -> (res: Result<TxtRecord, DecodeError>)
        ensures
            match parse_txt(buf@, *old(p) as int, rdlength as int) {
                Ok((v, next)) => res is Ok && res->Ok_0@ == v && *final(p) == next,
                Err(e) => res == Err::<TxtRecord, DecodeError>(e),
            },
    {
        if *p > buf.len() || rdlength > buf.len() - *p {
            return Err(DecodeError::UnexpectedEof);
        }
        let end = *p + rdlength;
        let ghost p0 = *p as int;
        let mut strings: Vec<String> = Vec::new();
        let ghost mut done: Seq<Seq<u8>> = seq![];
        while *p < end
            invariant
                end <= buf@.len(),
                *p <= end,
                p0 == *old(p),
                end == p0 + rdlength,
                strings_view(strings@) == lossy_labels(done),
                parse_txt_raw(buf@, p0, end as int) == match parse_txt_raw(buf@, *p as int, end as int) {
                    Ok(rest) => Ok(done + rest),
                    Err(e) => Err::<Seq<Seq<u8>>, DecodeError>(e),
                },
            decreases end - *p,
        {
            let len = read_u8(buf, p)? as usize;
            if len > end - *p {
                return Err(DecodeError::UnexpectedEof);
            }
            let s = string_from_utf8_lossy(slice_range(buf, *p, *p + len));
            let ghost piece = buf@.subrange(*p as int, *p + len);
            let ghost old_strings = strings@;
            strings.push(s);
            proof {
                lemma_lossy_labels_append(done, seq![piece]);
                assert(strings_view(strings@) =~= strings_view(old_strings).push(s@));
                assert(lossy_labels(seq![piece]) =~= seq![label_text(piece)]);
                assert(done + seq![piece] + parse_txt_raw(buf@, *p + len, end as int)->Ok_0 =~= done + (
                seq![piece] + parse_txt_raw(buf@, *p + len, end as int)->Ok_0));
                done = done + seq![piece];
            }
            *p = *p + len;
        }
        Ok(TxtRecord(strings))
    }
}

// ---------- OPT (EDNS) ----------

#[derive(Debug, PartialEq, Eq, Hash)]
pub struct EdnsOption {
    pub code: u16,
    pub data: Vec<u8>,
}

impl Clone for EdnsOption {
    fn clone(&self) -> (r: EdnsOption)
        ensures
            r@ == self@,
    {
        EdnsOption { code: self.code, data: slice_to_vec(self.data.as_slice()) }
    }
}

impl View for EdnsOption {
    type V = (u16, Seq<u8>);

    open spec fn view(&self) -> (u16, Seq<u8>) {
        (self.code, self.data@)
    }
}

#[derive(Debug, PartialEq, Eq, Hash)]
pub struct OptRecord {
    pub udp_payload_size: u16,
    pub extended_rcode: u8,
    pub version: u8,
    pub flags: u16,
    pub options: Vec<EdnsOption>,
}

pub struct OptView {
    pub udp_payload_size: u16,
    pub extended_rcode: u8,
    pub version: u8,
    pub flags: u16,
    pub options: Seq<(u16, Seq<u8>)>,
}

impl View for OptRecord {
    type V = OptView;

    open spec fn view(&self) -> OptView {
        OptView {
            udp_payload_size: self.udp_payload_size,
            extended_rcode: self.extended_rcode,
            version: self.version,
            flags: self.flags,
            options: self.options@.map_values(|o: EdnsOption| o@),
        }
    }
}

/// The options on the wire: code, data length (cut to a `u16`), data.
pub open spec fn options_wire(opts: Seq<(u16, Seq<u8>)>) -> Seq<u8>
    decreases opts.len(),
{
    if opts.len() == 0 {
        seq![]
    } else {
        options_wire(opts.drop_last()) + be16(opts.last().0) + be16(opts.last().1.len() as u16)
            + opts.last().1
    }
}

/// The options between `pos` and `end`. Each code and length is read
/// wherever it lies in `buf`, even past `end`; the data must end by `end`.
pub open spec fn parse_options(buf: Seq<u8>, pos: int, end: int) -> Result<
    Seq<(u16, Seq<u8>)>,
    DecodeError,
>
    decreases end - pos,
{
    if pos >= end {
        Ok(seq![])
    } else if pos < 0 || pos + 4 > buf.len() {
        Err(DecodeError::UnexpectedEof)
    } else {
        let start = pos + 4;
        let stop = start + u16_at(buf, pos + 2);
        if stop > end {
            Err(DecodeError::UnexpectedEof)
        } else {
            match parse_options(buf, stop, end) {
                Ok(rest) => Ok(seq![(u16_at(buf, pos), buf.subrange(start, stop))] + rest),
                Err(e) => Err(e),
            }
        }
    }
}

/// Decoding an OPT record's data of `rdlength` bytes at `pos`, with the
/// record's CLASS and TTL fields given.
pub open spec fn parse_opt(buf: Seq<u8>, class: u16, ttl: u32, pos: int, rdlength: int) -> Result<
    (OptView, int),
    DecodeError,
> {
    if pos + rdlength > buf.len() {
        Err(DecodeError::UnexpectedEof)
    } else {
        match parse_options(buf, pos, pos + rdlength) {
            Ok(opts) => Ok(
                (
                    OptView {
                        udp_payload_size: class,
                        extended_rcode: (ttl >> 24u32) as u8,
                        version: (ttl >> 16u32) as u8,
                        flags: ttl as u16,
                        options: opts,
                    },
                    pos + rdlength,
                ),
            ),
            Err(e) => Err(e),
        }
    }
}

/// The TTL field that carries the extended RCODE, version and flags.
pub open spec fn opt_ttl(o: OptView) -> u32 {
    ((o.extended_rcode as u32) << 24u32) | ((o.version as u32) << 16u32) | (o.flags as u32)
}

impl Clone for OptRecord {
    fn clone(&self) -> (r: OptRecord)
        ensures
            r@ == self@,
    {
        let mut options: Vec<EdnsOption> = Vec::new();
        let mut i: usize = 0;
        while i < self.options.len()
            invariant
                i <= self.options@.len(),
                options@.len() == i,
                forall|k: int| 0 <= k < i ==> (#[trigger] options@[k])@ == self.options@[k]@,
            decreases self.options@.len() - i,
        {
            options.push(self.options[i].clone());
            i = i + 1;
        }
        let r = OptRecord {
            udp_payload_size: self.udp_payload_size,
            extended_rcode: self.extended_rcode,
            version: self.version,
            flags: self.flags,
            options,
        };
        assert(r@.options =~= self@.options);
        r
    }
}

impl OptRecord {
    /// Encodes only the EDNS option list (RDATA).
    pub fn encode(&self, out: &mut Vec<u8>)
        ensures
            final(out)@ == old(out)@ + options_wire(self@.options),
    {
        let ghost opts = self@.options;
        let mut i: usize = 0;
        while i < self.options.len()
            invariant
                i <= self.options@.len(),
                opts == self@.options,
                out@ == old(out)@ + options_wire(opts.take(i as int)),
            decreases self.options@.len() - i,
        {
            let option = &self.options[i];
            let ghost before = out@;
            push_u16(out, option.code);
            push_u16(out, option.data.len() as u16);
            push_bytes(out, option.data.as_slice());
            assert(opts.take(i + 1).drop_last() =~= opts.take(i as int));
            assert(out@ =~= old(out)@ + options_wire(opts.take(i + 1)));
            i = i + 1;
        }
        assert(opts.take(self.options@.len() as int) =~= opts);
    }

    /// Decodes an OPT RR from its CLASS, TTL and RDATA. On failure `*p` is
    /// not specified.
    pub fn decode(class: u16, ttl: u32, buf: &[u8], p: &mut usize, rdlength: usize) -> (res: Result<
        OptRecord,
        DecodeError,
    >)
        ensures
            match parse_opt(buf@, class, ttl, *old(p) as int, rdlength as int) {
                Ok((v, next)) => res is Ok && res->Ok_0@ == v && *final(p) == next,
                Err(e) => res == Err::<OptRecord, DecodeError>(e),
            },
    {
        if *p > buf.len() || rdlength > buf.len() - *p {
            return Err(DecodeError::UnexpectedEof);
        }
        let end = *p + rdlength;
        let ghost p0 = *p as int;
        let mut options: Vec<EdnsOption> = Vec::new();
        while *p < end
            invariant
                end <= buf@.len(),
                *p <= end,
                p0 == *old(p),
                end == p0 + rdlength,
                parse_options(buf@, p0, end as int) == match parse_options(buf@, *p as int, end as int) {
                    Ok(rest) => Ok(options@.map_values(|o: EdnsOption| o@) + rest),
                    Err(e) => Err::<Seq<(u16, Seq<u8>)>, DecodeError>(e),
                },
            decreases end - *p,
        {
            let code = read_u16(buf, p)?;
            let len = read_u16(buf, p)? as usize;
            if *p > end || len > end - *p {
                return Err(DecodeError::UnexpectedEof);
            }
            let data = slice_to_vec(slice_range(buf, *p, *p + len));
            let ghost old_options = options@;
            let ghost item = (code, buf@.subrange(*p as int, *p + len));
            options.push(EdnsOption { code, data });
            proof {
                assert(options@.map_values(|o: EdnsOption| o@) =~= old_options.map_values(
                    |o: EdnsOption| o@,
                ).push(item));
                let rest = parse_options(buf@, *p + len, end as int);
                if rest is Ok {
                    assert(old_options.map_values(|o: EdnsOption| o@) + (seq![item] + rest->Ok_0)
                        =~= options@.map_values(|o: EdnsOption| o@) + rest->Ok_0);
                }
            }
            *p = *p + len;
        }
        Ok(
            OptRecord {
                udp_payload_size: class,
                extended_rcode: (ttl >> 24u32) as u8,
                version: (ttl >> 16u32) as u8,
                flags: ttl as u16,
                options,
            },
        )
    }

    /// Packs the extended RCODE, version and flags into the OPT TTL field.
    pub fn ttl(&self) -> (t: u32)
        ensures
            t == opt_ttl(self@),
    {
        ((self.extended_rcode as u32) << 24u32) | ((self.version as u32) << 16u32) | (
        self.flags as u32)
    }
}

} // verus!
