//! What decoding gives back of what encoding wrote.
use vstd::prelude::*;
use vstd::utf8::{encode_utf8, encode_utf8_decode_utf8, encode_utf8_valid_utf8};

use crate::message::compress::{table_get, table_insert, Labels};
use crate::message::record_types::{
    enc_name, enc_soa, first_match, has_no_dot, is_dot_split, join_dots, lemma_dot_split_unique,
    name_text, trim_dots, Name, label_text, labels_wire, lossy_labels, name_table, name_walk,
    name_wire, parse_name, parse_name_raw, parse_soa, parse_txt, parse_txt_raw, record_suffixes,
    soa_numbers, suffix_from, txt_strings_fit, SoaView, Table,
};
use crate::message::wire::{be16, be32, lemma_be16_u16_at, lemma_be32_u32_at, u16_at, u32_at};
use crate::message::flag;
use crate::message::{
    counted_header, enc_question, enc_questions, enc_rdata, enc_rr, enc_rrs, header_bytes,
    header_flags, header_from_words, label_wire, message_enc, message_wire, opcode_from_u8,
    opcode_to_u8, parse_header, parse_message, parse_question, parse_questions, parse_rdata,
    parse_rr, parse_rrs, qclass_from_u16, qclass_to_u16, qtype_from_u16, qtype_to_u16,
    query_view, rcode_from_u8, rcode_to_u8, rr_fixed, DecodeError, Header, MessageView, Opcode, QClass,
    QType, QuestionView, RDataView, Rcode, RrView,
};

verus! {

// ---------- Which names and records survive the trip ----------

/// A label that is written as itself: 1 to 63 bytes of UTF-8.
pub open spec fn valid_label(l: Seq<char>) -> bool {
    1 <= encode_utf8(l).len() <= 63
}

/// A name that is written as itself: at most 128 labels, each valid.
pub open spec fn valid_name(ls: Labels) -> bool {
    &&& ls.len() <= 128
    &&& forall|i: int| 0 <= i < ls.len() ==> valid_label(#[trigger] ls[i])
}

/// The bytes of each label.
pub open spec fn raw_labels(ls: Labels) -> Seq<Seq<u8>> {
    ls.map_values(|l: Seq<char>| encode_utf8(l))
}

pub proof fn lemma_label_text_of_utf8(l: Seq<char>)
    ensures
        label_text(encode_utf8(l)) == l,
{
    encode_utf8_valid_utf8(l);
    encode_utf8_decode_utf8(l);
}

pub proof fn lemma_lossy_raw_labels(ls: Labels)
    ensures
        lossy_labels(raw_labels(ls)) == ls,
{
    assert forall|i: int| 0 <= i < ls.len() implies #[trigger] lossy_labels(raw_labels(ls))[i]
        == ls[i] by {
        lemma_label_text_of_utf8(ls[i]);
    }
    assert(lossy_labels(raw_labels(ls)) =~= ls);
}

// ---------- Label sequences on the wire ----------

pub proof fn lemma_labels_wire_concat(a: Labels, b: Labels)
    ensures
        labels_wire(a + b) == labels_wire(a) + labels_wire(b),
    decreases b.len(),
{
    if b.len() == 0 {
        assert(a + b =~= a);
        assert(labels_wire(b) =~= Seq::<u8>::empty());
        assert(labels_wire(a) + labels_wire(b) =~= labels_wire(a));
    } else {
        assert((a + b).drop_last() =~= a + b.drop_last());
        assert((a + b).last() == b.last());
        lemma_labels_wire_concat(a, b.drop_last());
        assert(labels_wire(a + b) =~= labels_wire(a) + labels_wire(b));
    }
}

/// `F` holds the labels `k`, each spelled out, then a zero octet, at `off`.
pub open spec fn literal_at(f: Seq<u8>, off: int, k: Labels) -> bool {
    &&& 0 <= off
    &&& off + labels_wire(k).len() + 1 <= f.len()
    &&& f.subrange(off, off + labels_wire(k).len() + 1) == labels_wire(k) + seq![0u8]
}

/// Each table entry points at a spelled-out copy of its key in `f`.
pub open spec fn table_sound(f: Seq<u8>, t: Table) -> bool {
    forall|i: int|
        0 <= i < t.len() ==> {
            &&& (#[trigger] t[i]).1 <= 0x3FFF
            &&& valid_name(t[i].0)
            &&& literal_at(f, t[i].1 as int, t[i].0)
        }
}

proof fn lemma_walk_label(f: Seq<u8>, q: int, l: Seq<char>, acc: Seq<Seq<u8>>, h: int, post: int)
    requires
        valid_label(l),
        0 <= q,
        q + label_wire(l).len() <= f.len(),
        f.subrange(q, q + label_wire(l).len()) == label_wire(l),
        acc.len() + 1 <= 128,
        0 <= h <= 128,
    ensures
        name_walk(f, q, acc, h, post) == name_walk(
            f,
            q + label_wire(l).len(),
            acc.push(encode_utf8(l)),
            h,
            post,
        ),
{
    let len = encode_utf8(l).len();
    assert(f[q] == label_wire(l)[0]);
    assert(f[q] == len);
    assert(f.subrange(q + 1, q + 1 + len) =~= encode_utf8(l)) by {
        assert forall|i: int| 0 <= i < len implies f.subrange(q + 1, q + 1 + len)[i] == encode_utf8(
            l,
        )[i] by {
            assert(f[q + 1 + i] == label_wire(l)[1 + i]);
        }
    }
}

/// Reading spelled-out labels consumes them one by one.
pub proof fn lemma_walk_labels(f: Seq<u8>, p: int, ps: Labels, acc: Seq<Seq<u8>>, h: int, post: int)
    requires
        forall|i: int| 0 <= i < ps.len() ==> valid_label(#[trigger] ps[i]),
        0 <= p,
        p + labels_wire(ps).len() <= f.len(),
        f.subrange(p, p + labels_wire(ps).len()) == labels_wire(ps),
        acc.len() + ps.len() <= 128,
        0 <= h <= 128,
    ensures
        name_walk(f, p, acc, h, post) == name_walk(
            f,
            p + labels_wire(ps).len(),
            acc + raw_labels(ps),
            h,
            post,
        ),
    decreases ps.len(),
{
    if ps.len() == 0 {
        assert(acc + raw_labels(ps) =~= acc);
    } else {
        let front = ps.drop_last();
        let l = ps.last();
        let wf = labels_wire(front);
        let q = p + wf.len();
        assert(labels_wire(ps) == wf + label_wire(l));
        assert(f.subrange(p, p + wf.len()) =~= wf) by {
            assert forall|i: int| 0 <= i < wf.len() implies f.subrange(p, p + wf.len())[i] == wf[i] by {
                assert(f.subrange(p, p + labels_wire(ps).len())[i] == labels_wire(ps)[i]);
            }
        }
        lemma_walk_labels(f, p, front, acc, h, post);
        assert(f.subrange(q, q + label_wire(l).len()) =~= label_wire(l)) by {
            assert forall|i: int| 0 <= i < label_wire(l).len() implies f.subrange(
                q,
                q + label_wire(l).len(),
            )[i] == label_wire(l)[i] by {
                assert(f.subrange(p, p + labels_wire(ps).len())[wf.len() + i] == labels_wire(
                    ps,
                )[wf.len() + i]);
            }
        }
        assert(valid_label(ps[ps.len() - 1]));
        lemma_walk_label(f, q, l, acc + raw_labels(front), h, post);
        assert((acc + raw_labels(front)).push(encode_utf8(l)) =~= acc + raw_labels(ps));
    }
}

/// Reading a spelled-out name.
pub proof fn lemma_walk_literal(f: Seq<u8>, p: int, k: Labels, acc: Seq<Seq<u8>>, h: int, post: int)
    requires
        literal_at(f, p, k),
        valid_name(k),
        acc.len() + k.len() <= 128,
        0 <= h <= 128,
    ensures
        name_walk(f, p, acc, h, post) == Ok::<(Seq<Seq<u8>>, int), DecodeError>(
            (
                acc + raw_labels(k),
                if post >= 0 {
                    post
                } else {
                    p + labels_wire(k).len() + 1
                },
            ),
        ),
{
    let w = labels_wire(k);
    assert(f.subrange(p, p + w.len()) =~= w) by {
        assert forall|i: int| 0 <= i < w.len() implies f.subrange(p, p + w.len())[i] == w[i] by {
            assert(f.subrange(p, p + w.len() + 1)[i] == (w + seq![0u8])[i]);
        }
    }
    lemma_walk_labels(f, p, k, acc, h, post);
    assert(f[p + w.len()] == 0) by {
        assert(f.subrange(p, p + w.len() + 1)[w.len() as int] == (w + seq![0u8])[w.len() as int]);
    }
}

pub proof fn lemma_pointer_bytes(off: u16)
    requires
        off <= 0x3FFF,
    ensures
        be16(0xC000u16 | off)[0] >= 0xC0,
        (be16(0xC000u16 | off)[0] - 0xC0) * 256 + be16(0xC000u16 | off)[1] == off,
{
    let v = 0xC000u16 | off;
    assert(v / 256 >= 0xC0 && (v / 256 - 0xC0) * 256 + v % 256 == off) by (bit_vector)
        requires
            v == 0xC000u16 | off,
            off <= 0x3FFF,
    ;
}

/// Following a compression pointer to a spelled-out name.
pub proof fn lemma_walk_pointer(
    f: Seq<u8>,
    q: int,
    off: u16,
    k: Labels,
    acc: Seq<Seq<u8>>,
    h: int,
)
    requires
        0 <= q,
        q + 2 <= f.len(),
        f.subrange(q, q + 2) == be16(0xC000u16 | off),
        off <= 0x3FFF,
        literal_at(f, off as int, k),
        valid_name(k),
        acc.len() + k.len() <= 128,
        0 <= h < 128,
    ensures
        name_walk(f, q, acc, h, -1) == Ok::<(Seq<Seq<u8>>, int), DecodeError>(
            (acc + raw_labels(k), q + 2),
        ),
{
    lemma_pointer_bytes(off);
    assert(f[q] == be16(0xC000u16 | off)[0]);
    assert(f[q + 1] == be16(0xC000u16 | off)[1]);
    lemma_walk_literal(f, off as int, k, acc, h + 1, q + 2);
}


// ---------- Names through the compression table ----------

pub proof fn lemma_first_match(ls: Labels, t: Table, start: int)
    requires
        first_match(ls, t, start) is Some,
    ensures
        ({
            let (s, off) = first_match(ls, t, start)->Some_0;
            &&& start <= s < ls.len()
            &&& table_get(t, suffix_from(ls, s)) == Some(off)
        }),
    decreases ls.len() + 1 - start,
{
    if start < 0 || start > ls.len() {
    } else if start < ls.len() && table_get(t, suffix_from(ls, start)) is Some {
    } else {
        lemma_first_match(ls, t, start + 1);
    }
}

pub proof fn lemma_table_get_entry(t: Table, key: Labels)
    requires
        table_get(t, key) is Some,
    ensures
        exists|i: int| 0 <= i < t.len() && #[trigger] t[i] == (key, table_get(t, key)->Some_0),
{
    let i = crate::message::compress::table_index(t, key);
    assert(t[i] == (key, table_get(t, key)->Some_0));
}

pub proof fn lemma_insert_sound(f: Seq<u8>, t: Table, key: Labels, off: u16)
    requires
        table_sound(f, t),
        off <= 0x3FFF,
        valid_name(key),
        literal_at(f, off as int, key),
    ensures
        table_sound(f, table_insert(t, key, off)),
{
    let t2 = table_insert(t, key, off);
    assert forall|i: int| 0 <= i < t2.len() implies {
        &&& (#[trigger] t2[i]).1 <= 0x3FFF
        &&& valid_name(t2[i].0)
        &&& literal_at(f, t2[i].1 as int, t2[i].0)
    } by {
        if i < t.len() && t2[i] == t[i] {
        } else {
            assert(t2[i] == (key, off));
        }
    }
}

pub proof fn lemma_suffix_valid(ls: Labels, i: int)
    requires
        valid_name(ls),
        0 <= i <= ls.len(),
    ensures
        valid_name(suffix_from(ls, i)),
        valid_name(ls.take(i)),
{
    assert forall|j: int| 0 <= j < suffix_from(ls, i).len() implies valid_label(
        #[trigger] suffix_from(ls, i)[j],
    ) by {
        assert(suffix_from(ls, i)[j] == ls[i + j]);
    }
    assert forall|j: int| 0 <= j < ls.take(i).len() implies valid_label(#[trigger] ls.take(i)[j]) by {
        assert(ls.take(i)[j] == ls[j]);
    }
}

/// A spelled-out name holds a spelled-out copy of each of its suffixes.
pub proof fn lemma_literal_suffix(f: Seq<u8>, base: int, ls: Labels, i: int)
    requires
        literal_at(f, base, ls),
        0 <= i <= ls.len(),
    ensures
        literal_at(f, base + labels_wire(ls.take(i)).len(), suffix_from(ls, i)),
{
    let a = ls.take(i);
    let b = suffix_from(ls, i);
    assert(a + b =~= ls);
    lemma_labels_wire_concat(a, b);
    let wa = labels_wire(a);
    let wb = labels_wire(b);
    let c = base + wa.len();
    assert(f.subrange(c, c + wb.len() + 1) =~= wb + seq![0u8]) by {
        assert forall|j: int| 0 <= j < wb.len() + 1 implies f.subrange(c, c + wb.len() + 1)[j] == (wb
            + seq![0u8])[j] by {
            assert(f.subrange(base, base + labels_wire(ls).len() + 1)[wa.len() + j] == (labels_wire(
                ls,
            ) + seq![0u8])[wa.len() + j]);
        }
    }
}

pub proof fn lemma_record_suffixes_sound(
    f: Seq<u8>,
    ls: Labels,
    t: Table,
    cursor: int,
    i: int,
    base: int,
)
    requires
        table_sound(f, t),
        valid_name(ls),
        literal_at(f, base, ls),
        0 <= i <= ls.len(),
        cursor == base + labels_wire(ls.take(i)).len(),
    ensures
        table_sound(f, record_suffixes(ls, t, cursor, i)),
    decreases ls.len() - i,
{
    if i < ls.len() {
        let t2 = if cursor <= 0x3FFF {
            table_insert(t, suffix_from(ls, i), cursor as u16)
        } else {
            t
        };
        if cursor <= 0x3FFF {
            lemma_suffix_valid(ls, i);
            lemma_literal_suffix(f, base, ls, i);
            lemma_insert_sound(f, t, suffix_from(ls, i), cursor as u16);
        }
        crate::message::record_types::lemma_labels_wire_step(ls, i);
        lemma_record_suffixes_sound(f, ls, t2, cursor + label_wire(ls[i]).len(), i + 1, base);
    }
}

pub proof fn lemma_subrange_of_subrange(f: Seq<u8>, a: int, b: int, c: int, d: int, s: Seq<u8>)
    requires
        0 <= a <= c <= d <= b <= f.len(),
        f.subrange(a, b) == s,
    ensures
        f.subrange(c, d) == s.subrange(c - a, d - a),
{
    assert(f.subrange(c, d) =~= s.subrange(c - a, d - a)) by {
        assert forall|j: int| 0 <= j < d - c implies f.subrange(c, d)[j] == s.subrange(
            c - a,
            d - a,
        )[j] by {
            assert(f.subrange(a, b)[c - a + j] == s[c - a + j]);
        }
    }
}

/// What `f` holds at `p` is the bytes that an encoder state appended there.
pub open spec fn holds_at(f: Seq<u8>, p: int, bytes: Seq<u8>) -> bool {
    &&& 0 <= p
    &&& p + bytes.len() <= f.len()
    &&& f.subrange(p, p + bytes.len()) == bytes
}

/// A name written with a sound table reads back as itself, and the table
/// stays sound.
pub proof fn lemma_enc_name(f: Seq<u8>, st: (Seq<u8>, Table), ls: Labels)
    requires
        valid_name(ls),
        table_sound(f, st.1),
        holds_at(f, st.0.len() as int, name_wire(ls, st.1)),
    ensures
        parse_name_raw(f, st.0.len() as int) == Ok::<(Seq<Seq<u8>>, int), DecodeError>(
            (raw_labels(ls), enc_name(st, ls).0.len() as int),
        ),
        parse_name(f, st.0.len() as int) == Ok::<(Labels, int), DecodeError>(
            (ls, enc_name(st, ls).0.len() as int),
        ),
        table_sound(f, enc_name(st, ls).1),
{
    let t = st.1;
    let p = st.0.len() as int;
    let w = name_wire(ls, t);
    lemma_lossy_raw_labels(ls);
    match first_match(ls, t, 0) {
        Some((s, off)) => {
            lemma_first_match(ls, t, 0);
            let k = suffix_from(ls, s);
            lemma_table_get_entry(t, k);
            let i = choose|i: int| 0 <= i < t.len() && #[trigger] t[i] == (k, off);
            assert(t[i].1 <= 0x3FFF && valid_name(t[i].0) && literal_at(f, t[i].1 as int, t[i].0));
            let front = ls.take(s);
            let wf = labels_wire(front);
            lemma_suffix_valid(ls, s);
            assert(w == wf + be16(0xC000u16 | off));
            lemma_subrange_of_subrange(f, p, p + w.len(), p, p + wf.len(), w);
            assert(w.subrange(0, wf.len() as int) =~= wf);
            lemma_walk_labels(f, p, front, seq![], 0, -1);
            lemma_subrange_of_subrange(f, p, p + w.len(), p + wf.len(), p + w.len(), w);
            assert(w.subrange(wf.len() as int, w.len() as int) =~= be16(0xC000u16 | off));
            assert(front.len() + k.len() == ls.len());
            lemma_walk_pointer(f, p + wf.len(), off, k, Seq::<Seq<u8>>::empty() + raw_labels(front), 0);
            assert(Seq::<Seq<u8>>::empty() + raw_labels(front) + raw_labels(k) =~= raw_labels(ls)) by {
                assert(front + k =~= ls);
            }
        },
        None => {
            assert(w == labels_wire(ls) + seq![0u8]);
            assert(literal_at(f, p, ls));
            lemma_walk_literal(f, p, ls, seq![], 0, -1);
            assert(Seq::<Seq<u8>>::empty() + raw_labels(ls) =~= raw_labels(ls));
            assert(ls.take(0) =~= Seq::<Seq<char>>::empty());
            assert(labels_wire(ls.take(0)).len() == 0);
            lemma_record_suffixes_sound(f, ls, t, p, 0, p);
        },
    }
}


// ---------- Fixed-size fields ----------

pub proof fn lemma_holds_split(f: Seq<u8>, p: int, a: Seq<u8>, b: Seq<u8>)
    requires
        holds_at(f, p, a + b),
    ensures
        holds_at(f, p, a),
        holds_at(f, p + a.len(), b),
{
    lemma_subrange_of_subrange(f, p, p + (a + b).len(), p, p + a.len(), a + b);
    assert((a + b).subrange(0, a.len() as int) =~= a);
    lemma_subrange_of_subrange(f, p, p + (a + b).len(), p + a.len(), p + (a + b).len(), a + b);
    assert((a + b).subrange(a.len() as int, (a + b).len() as int) =~= b);
}

pub proof fn lemma_holds_u16(f: Seq<u8>, p: int, v: u16)
    requires
        holds_at(f, p, be16(v)),
    ensures
        u16_at(f, p) == v,
{
    lemma_be16_u16_at(v);
    assert(f[p] == be16(v)[0] && f[p + 1] == be16(v)[1]) by {
        assert(f.subrange(p, p + 2)[0] == be16(v)[0]);
        assert(f.subrange(p, p + 2)[1] == be16(v)[1]);
    }
}

pub proof fn lemma_holds_u32(f: Seq<u8>, p: int, v: u32)
    requires
        holds_at(f, p, be32(v)),
    ensures
        u32_at(f, p) == v,
{
    lemma_be32_u32_at(v);
    assert(f[p] == be32(v)[0] && f[p + 1] == be32(v)[1] && f[p + 2] == be32(v)[2] && f[p + 3]
        == be32(v)[3]) by {
        assert(f.subrange(p, p + 4)[0] == be32(v)[0]);
        assert(f.subrange(p, p + 4)[1] == be32(v)[1]);
        assert(f.subrange(p, p + 4)[2] == be32(v)[2]);
        assert(f.subrange(p, p + 4)[3] == be32(v)[3]);
    }
}

/// The bytes an encoder step added after `st`.
pub open spec fn appended(st: (Seq<u8>, Table), st2: (Seq<u8>, Table)) -> Seq<u8> {
    st2.0.subrange(st.0.len() as int, st2.0.len() as int)
}

/// `st2`'s bytes begin with `st`'s.
pub open spec fn extends(st: (Seq<u8>, Table), st2: (Seq<u8>, Table)) -> bool {
    &&& st.0.len() <= st2.0.len()
    &&& st2.0.subrange(0, st.0.len() as int) == st.0
}

pub proof fn lemma_extends_concat(a: Seq<u8>, b: Seq<u8>, t: Table, t2: Table)
    ensures
        extends((a, t), (a + b, t2)),
        appended((a, t), (a + b, t2)) == b,
{
    assert((a + b).subrange(0, a.len() as int) =~= a);
    assert((a + b).subrange(a.len() as int, (a + b).len() as int) =~= b);
}

// ---------- SOA and TXT ----------

pub proof fn lemma_enc_soa(f: Seq<u8>, st: (Seq<u8>, Table), soa: SoaView)
    requires
        valid_name(soa.mname),
        valid_name(soa.rname),
        table_sound(f, st.1),
        holds_at(f, st.0.len() as int, appended(st, enc_soa(st, soa))),
    ensures
        extends(st, enc_soa(st, soa)),
        parse_soa(f, st.0.len() as int) == Ok::<(SoaView, int), DecodeError>(
            (soa, enc_soa(st, soa).0.len() as int),
        ),
        table_sound(f, enc_soa(st, soa).1),
{
    let s1 = enc_name(st, soa.mname);
    let s2 = enc_name(s1, soa.rname);
    let w1 = name_wire(soa.mname, st.1);
    let w2 = name_wire(soa.rname, s1.1);
    let nums = soa_numbers(soa);
    let p = st.0.len() as int;
    assert(enc_soa(st, soa).0 == st.0 + (w1 + w2 + nums));
    lemma_extends_concat(st.0, w1 + w2 + nums, st.1, enc_soa(st, soa).1);
    lemma_holds_split(f, p, w1 + w2, nums);
    lemma_holds_split(f, p, w1, w2);
    lemma_enc_name(f, st, soa.mname);
    lemma_enc_name(f, s1, soa.rname);
    let q = p + w1.len() + w2.len();
    assert(nums == be32(soa.serial) + be32(soa.refresh) + be32(soa.retry) + be32(soa.expire) + be32(
        soa.minimum,
    ));
    lemma_holds_split(f, q, be32(soa.serial) + be32(soa.refresh) + be32(soa.retry) + be32(soa.expire), be32(soa.minimum));
    lemma_holds_split(f, q, be32(soa.serial) + be32(soa.refresh) + be32(soa.retry), be32(soa.expire));
    lemma_holds_split(f, q, be32(soa.serial) + be32(soa.refresh), be32(soa.retry));
    lemma_holds_split(f, q, be32(soa.serial), be32(soa.refresh));
    lemma_holds_u32(f, q, soa.serial);
    lemma_holds_u32(f, q + 4, soa.refresh);
    lemma_holds_u32(f, q + 8, soa.retry);
    lemma_holds_u32(f, q + 12, soa.expire);
    lemma_holds_u32(f, q + 16, soa.minimum);
}

/// The TXT strings' length octets are their lengths.
pub proof fn lemma_parse_txt_raw(f: Seq<u8>, p: int, t: Labels, end: int)
    requires
        txt_strings_fit(t),
        holds_at(f, p, labels_wire(t)),
        end == p + labels_wire(t).len(),
    ensures
        parse_txt_raw(f, p, end) == Ok::<Seq<Seq<u8>>, DecodeError>(raw_labels(t)),
    decreases t.len(),
{
    if t.len() == 0 {
        assert(raw_labels(t) =~= Seq::<Seq<u8>>::empty());
    } else {
        let x = t[0];
        let rest = t.drop_first();
        assert(seq![x] + rest =~= t);
        lemma_labels_wire_concat(seq![x], rest);
        assert(seq![x].drop_last() =~= Seq::<Seq<char>>::empty());
        assert(labels_wire(Seq::<Seq<char>>::empty()) =~= Seq::<u8>::empty());
        assert(labels_wire(seq![x]) == labels_wire(seq![x].drop_last()) + label_wire(seq![x].last()));
        assert(labels_wire(seq![x]) =~= label_wire(x));
        lemma_holds_split(f, p, label_wire(x), labels_wire(rest));
        let len = encode_utf8(x).len();
        assert(len <= 255);
        assert(f[p] == label_wire(x)[0]) by {
            assert(f.subrange(p, p + label_wire(x).len())[0] == label_wire(x)[0]);
        }
        assert(f.subrange(p + 1, p + 1 + len) =~= encode_utf8(x)) by {
            assert forall|i: int| 0 <= i < len implies f.subrange(p + 1, p + 1 + len)[i]
                == encode_utf8(x)[i] by {
                assert(f.subrange(p, p + label_wire(x).len())[1 + i] == label_wire(x)[1 + i]);
            }
        }
        assert forall|i: int| 0 <= i < rest.len() implies encode_utf8(#[trigger] rest[i]).len()
            <= 255 by {
            assert(rest[i] == t[i + 1]);
        }
        lemma_parse_txt_raw(f, p + 1 + len, rest, end);
        assert(seq![encode_utf8(x)] + raw_labels(rest) =~= raw_labels(t));
    }
}

// ---------- Records ----------

/// A type code that reads back as the same type.
pub open spec fn qtype_canonical(t: QType) -> bool {
    qtype_from_u16(qtype_to_u16(t)) == t
}

pub open spec fn qclass_canonical(c: QClass) -> bool {
    qclass_from_u16(qclass_to_u16(c)) == c
}

/// Record data that reads back as itself under type `rtype`: it is of that
/// type, its names are valid, its TXT strings fit and (for TXT and raw data,
/// the only kinds that can be long) it takes at most 65535 bytes, the most
/// the length field holds. OPT data does not read back (its first six bytes
/// are read as CLASS and TTL), and raw data only under a type that has no
/// structure of its own.
pub open spec fn rdata_round_trips(rtype: QType, rd: RDataView) -> bool {
    match rd {
        RDataView::A(b) => rtype == QType::A && b.len() == 4,
        RDataView::AAAA(b) => rtype == QType::AAAA && b.len() == 16,
        RDataView::NS(n) => rtype == QType::NS && valid_name(n),
        RDataView::CNAME(n) => rtype == QType::CNAME && valid_name(n),
        RDataView::SOA(s) => rtype == QType::SOA && valid_name(s.mname) && valid_name(s.rname),
        RDataView::TXT(t) => rtype == QType::TXT && txt_strings_fit(t) && labels_wire(t).len()
            <= 0xFFFF,
        RDataView::OPT(_) => false,
        RDataView::Raw(b) => b.len() <= 0xFFFF && !(rtype is A || rtype is AAAA || rtype is NS || rtype is CNAME
            || rtype is SOA || rtype is TXT || rtype is OPT),
    }
}

pub open spec fn rr_round_trips(rr: RrView) -> bool {
    &&& valid_name(rr.name)
    &&& qtype_canonical(rr.rtype)
    &&& qclass_canonical(rr.rclass)
    &&& rdata_round_trips(rr.rtype, rr.rdata)
}

pub proof fn lemma_enc_rdata(f: Seq<u8>, st: (Seq<u8>, Table), rtype: QType, rd: RDataView)
    requires
        rdata_round_trips(rtype, rd),
        table_sound(f, st.1),
        holds_at(f, st.0.len() as int, appended(st, enc_rdata(st, rd))),
    ensures
        extends(st, enc_rdata(st, rd)),
        parse_rdata(f, rtype, st.0.len() as int, appended(st, enc_rdata(st, rd)).len() as int)
            == Ok::<RDataView, DecodeError>(rd),
        table_sound(f, enc_rdata(st, rd).1),
{
    let p = st.0.len() as int;
    let st2 = enc_rdata(st, rd);
    match rd {
        RDataView::A(b) => {
            lemma_extends_concat(st.0, b, st.1, st.1);
        },
        RDataView::AAAA(b) => {
            lemma_extends_concat(st.0, b, st.1, st.1);
        },
        RDataView::NS(n) => {
            lemma_extends_concat(st.0, name_wire(n, st.1), st.1, st2.1);
            lemma_enc_name(f, st, n);
        },
        RDataView::CNAME(n) => {
            lemma_extends_concat(st.0, name_wire(n, st.1), st.1, st2.1);
            lemma_enc_name(f, st, n);
        },
        RDataView::SOA(soa) => {
            lemma_enc_soa(f, st, soa);
        },
        RDataView::TXT(t) => {
            lemma_extends_concat(st.0, labels_wire(t), st.1, st.1);
            lemma_parse_txt_raw(f, p, t, p + labels_wire(t).len());
            lemma_lossy_raw_labels(t);
        },
        RDataView::OPT(_) => {},
        RDataView::Raw(b) => {
            lemma_extends_concat(st.0, b, st.1, st.1);
        },
    }
}

/// A record written with a sound table reads back as itself.
pub proof fn lemma_enc_rr(f: Seq<u8>, st: (Seq<u8>, Table), rr: RrView)
    requires
        rr_round_trips(rr),
        table_sound(f, st.1),
        holds_at(f, st.0.len() as int, appended(st, enc_rr(st, rr))),
    ensures
        extends(st, enc_rr(st, rr)),
        parse_rr(f, st.0.len() as int) == Ok::<(RrView, int), DecodeError>(
            (rr, enc_rr(st, rr).0.len() as int),
        ),
        table_sound(f, enc_rr(st, rr).1),
{
    let p = st.0.len() as int;
    let s1 = enc_name(st, rr.name);
    let w1 = name_wire(rr.name, st.1);
    let fixed = rr_fixed(rr);
    let b1 = s1.0 + fixed;
    let r0 = (b1 + seq![0u8, 0u8], s1.1);
    let s2 = enc_rdata(r0, rr.rdata);
    let rd_bytes = s2.0.subrange(b1.len() as int + 2, s2.0.len() as int);
    let rdl = be16(rd_bytes.len() as u16);
    let res = enc_rr(st, rr);
    assert(res.0 == b1 + rdl + rd_bytes);
    assert(res.0 =~= st.0 + (w1 + fixed + rdl + rd_bytes));
    lemma_extends_concat(st.0, w1 + fixed + rdl + rd_bytes, st.1, res.1);
    lemma_holds_split(f, p, w1 + fixed + rdl, rd_bytes);
    lemma_holds_split(f, p, w1 + fixed, rdl);
    lemma_holds_split(f, p, w1, fixed);
    lemma_enc_name(f, st, rr.name);
    let p1 = p + w1.len();
    assert(fixed == be16(qtype_to_u16(rr.rtype)) + be16(qclass_to_u16(rr.rclass)) + be32(rr.ttl));
    lemma_holds_split(f, p1, be16(qtype_to_u16(rr.rtype)) + be16(qclass_to_u16(rr.rclass)), be32(rr.ttl));
    lemma_holds_split(f, p1, be16(qtype_to_u16(rr.rtype)), be16(qclass_to_u16(rr.rclass)));
    lemma_holds_u16(f, p1, qtype_to_u16(rr.rtype));
    lemma_holds_u16(f, p1 + 2, qclass_to_u16(rr.rclass));
    lemma_holds_u32(f, p1 + 4, rr.ttl);
    lemma_holds_u16(f, p1 + 8, rd_bytes.len() as u16);
    assert(r0.0.len() == b1.len() + 2);
    assert(appended(r0, s2) == rd_bytes);
    lemma_enc_rdata(f, r0, rr.rtype, rr.rdata);
    lemma_rdata_len(r0, rr.rtype, rr.rdata);
    assert(rd_bytes.len() <= 0xFFFF);
    assert(u16_at(f, p1 + 8) as int == rd_bytes.len());
}


/// A valid name takes at most 8194 bytes, however it is compressed.
pub proof fn lemma_name_wire_len(ls: Labels, t: Table)
    requires
        valid_name(ls),
    ensures
        name_wire(ls, t).len() <= 64 * 128 + 2,
{
    match first_match(ls, t, 0) {
        Some((s, off)) => {
            lemma_first_match(ls, t, 0);
            lemma_suffix_valid(ls, s);
            lemma_labels_wire_len(ls.take(s));
        },
        None => {
            lemma_labels_wire_len(ls);
        },
    }
}

/// The data of a record that round-trips takes at most 65535 bytes.
pub proof fn lemma_rdata_len(st: (Seq<u8>, Table), rtype: QType, rd: RDataView)
    requires
        rdata_round_trips(rtype, rd),
    ensures
        appended(st, enc_rdata(st, rd)).len() <= 0xFFFF,
{
    match rd {
        RDataView::NS(n) => lemma_name_wire_len(n, st.1),
        RDataView::CNAME(n) => lemma_name_wire_len(n, st.1),
        RDataView::SOA(soa) => {
            let s1 = enc_name(st, soa.mname);
            lemma_name_wire_len(soa.mname, st.1);
            lemma_name_wire_len(soa.rname, s1.1);
        },
        _ => {},
    }
}

// ---------- Encoders only append ----------

pub proof fn lemma_extends_trans(a: (Seq<u8>, Table), b: (Seq<u8>, Table), c: (Seq<u8>, Table))
    requires
        extends(a, b),
        extends(b, c),
    ensures
        extends(a, c),
        appended(a, c) == appended(a, b) + appended(b, c),
{
    assert(c.0.subrange(0, a.0.len() as int) =~= a.0) by {
        assert forall|i: int| 0 <= i < a.0.len() implies c.0.subrange(0, a.0.len() as int)[i]
            == a.0[i] by {
            assert(c.0.subrange(0, b.0.len() as int)[i] == b.0[i]);
            assert(b.0.subrange(0, a.0.len() as int)[i] == a.0[i]);
        }
    }
    assert(appended(a, c) =~= appended(a, b) + appended(b, c)) by {
        assert forall|i: int| 0 <= i < appended(a, c).len() implies appended(a, c)[i] == (appended(
            a,
            b,
        ) + appended(b, c))[i] by {
            if i < b.0.len() - a.0.len() {
                assert(c.0.subrange(0, b.0.len() as int)[a.0.len() + i] == b.0[a.0.len() + i]);
            }
        }
    }
}

pub proof fn lemma_extends_rdata(st: (Seq<u8>, Table), rd: RDataView)
    ensures
        extends(st, enc_rdata(st, rd)),
{
    match rd {
        RDataView::A(b) => lemma_extends_concat(st.0, b, st.1, st.1),
        RDataView::AAAA(b) => lemma_extends_concat(st.0, b, st.1, st.1),
        RDataView::NS(n) => lemma_extends_concat(st.0, name_wire(n, st.1), st.1, enc_rdata(st, rd).1),
        RDataView::CNAME(n) => lemma_extends_concat(st.0, name_wire(n, st.1), st.1, enc_rdata(st, rd).1),
        RDataView::SOA(soa) => {
            let s1 = enc_name(st, soa.mname);
            let s2 = enc_name(s1, soa.rname);
            assert(enc_soa(st, soa).0 =~= st.0 + (name_wire(soa.mname, st.1) + name_wire(soa.rname, s1.1) + soa_numbers(soa)));
            lemma_extends_concat(st.0, name_wire(soa.mname, st.1) + name_wire(soa.rname, s1.1) + soa_numbers(soa), st.1, s2.1);
        },
        RDataView::TXT(t) => lemma_extends_concat(st.0, labels_wire(t), st.1, st.1),
        RDataView::OPT(o) => lemma_extends_concat(st.0, crate::message::record_types::options_wire(o.options), st.1, st.1),
        RDataView::Raw(b) => lemma_extends_concat(st.0, b, st.1, st.1),
    }
}

pub proof fn lemma_extends_rr(st: (Seq<u8>, Table), rr: RrView)
    ensures
        extends(st, enc_rr(st, rr)),
{
    let s1 = enc_name(st, rr.name);
    let b1 = s1.0 + rr_fixed(rr);
    let r0 = (b1 + seq![0u8, 0u8], s1.1);
    let s2 = enc_rdata(r0, rr.rdata);
    let rd_bytes = s2.0.subrange(b1.len() as int + 2, s2.0.len() as int);
    let rdl = be16(rd_bytes.len() as u16);
    lemma_extends_rdata(r0, rr.rdata);
    assert(enc_rr(st, rr).0 =~= st.0 + (name_wire(rr.name, st.1) + rr_fixed(rr) + rdl + rd_bytes));
    lemma_extends_concat(st.0, name_wire(rr.name, st.1) + rr_fixed(rr) + rdl + rd_bytes, st.1, s2.1);
}

pub proof fn lemma_extends_rrs(st: (Seq<u8>, Table), rrs: Seq<RrView>)
    ensures
        extends(st, enc_rrs(st, rrs)),
    decreases rrs.len(),
{
    if rrs.len() == 0 {
        lemma_extends_concat(st.0, seq![], st.1, st.1);
        assert(st.0 + Seq::<u8>::empty() =~= st.0);
    } else {
        let mid = enc_rrs(st, rrs.drop_last());
        lemma_extends_rrs(st, rrs.drop_last());
        lemma_extends_rr(mid, rrs.last());
        lemma_extends_trans(st, mid, enc_rrs(st, rrs));
    }
}

pub proof fn lemma_extends_question(st: (Seq<u8>, Table), q: QuestionView)
    ensures
        extends(st, enc_question(st, q)),
{
    let s1 = enc_name(st, q.name);
    let tail = be16(qtype_to_u16(q.qtype)) + be16(qclass_to_u16(q.qclass));
    assert(enc_question(st, q).0 =~= st.0 + (name_wire(q.name, st.1) + tail));
    lemma_extends_concat(st.0, name_wire(q.name, st.1) + tail, st.1, s1.1);
}

pub proof fn lemma_extends_questions(st: (Seq<u8>, Table), qs: Seq<QuestionView>)
    ensures
        extends(st, enc_questions(st, qs)),
    decreases qs.len(),
{
    if qs.len() == 0 {
        lemma_extends_concat(st.0, seq![], st.1, st.1);
        assert(st.0 + Seq::<u8>::empty() =~= st.0);
    } else {
        let mid = enc_questions(st, qs.drop_last());
        lemma_extends_questions(st, qs.drop_last());
        lemma_extends_question(mid, qs.last());
        lemma_extends_trans(st, mid, enc_questions(st, qs));
    }
}

// ---------- Questions and sections ----------

pub open spec fn question_round_trips(q: QuestionView) -> bool {
    &&& valid_name(q.name)
    &&& qtype_canonical(q.qtype)
    &&& qclass_canonical(q.qclass)
}

pub proof fn lemma_enc_question(f: Seq<u8>, st: (Seq<u8>, Table), q: QuestionView)
    requires
        question_round_trips(q),
        table_sound(f, st.1),
        holds_at(f, st.0.len() as int, appended(st, enc_question(st, q))),
    ensures
        parse_question(f, st.0.len() as int) == Ok::<(QuestionView, int), DecodeError>(
            (q, enc_question(st, q).0.len() as int),
        ),
        table_sound(f, enc_question(st, q).1),
{
    let p = st.0.len() as int;
    let w1 = name_wire(q.name, st.1);
    let a = be16(qtype_to_u16(q.qtype));
    let b = be16(qclass_to_u16(q.qclass));
    assert(enc_question(st, q).0 =~= st.0 + (w1 + a + b));
    lemma_extends_concat(st.0, w1 + a + b, st.1, enc_question(st, q).1);
    lemma_holds_split(f, p, w1 + a, b);
    lemma_holds_split(f, p, w1, a);
    lemma_enc_name(f, st, q.name);
    lemma_holds_u16(f, p + w1.len(), qtype_to_u16(q.qtype));
    lemma_holds_u16(f, p + w1.len() + 2, qclass_to_u16(q.qclass));
}

pub proof fn lemma_parse_rrs_snoc(f: Seq<u8>, p: int, k: nat)
    requires
        parse_rrs(f, p, k) is Ok,
        parse_rr(f, parse_rrs(f, p, k)->Ok_0.1) is Ok,
    ensures
        parse_rrs(f, p, k + 1) == Ok::<(Seq<RrView>, int), DecodeError>(
            (
                parse_rrs(f, p, k)->Ok_0.0.push(parse_rr(f, parse_rrs(f, p, k)->Ok_0.1)->Ok_0.0),
                parse_rr(f, parse_rrs(f, p, k)->Ok_0.1)->Ok_0.1,
            ),
        ),
    decreases k,
{
    if k == 0 {
        let x = parse_rr(f, p)->Ok_0;
        assert(parse_rrs(f, x.1, 0) == Ok::<(Seq<RrView>, int), DecodeError>((seq![], x.1)));
        assert(seq![x.0] + Seq::<RrView>::empty() =~= Seq::<RrView>::empty().push(x.0));
    } else {
        let (r, p1) = parse_rr(f, p)->Ok_0;
        lemma_parse_rrs_snoc(f, p1, (k - 1) as nat);
        let rest = parse_rrs(f, p1, (k - 1) as nat)->Ok_0.0;
        let last = parse_rr(f, parse_rrs(f, p, k)->Ok_0.1)->Ok_0.0;
        assert(seq![r] + rest.push(last) =~= (seq![r] + rest).push(last));
    }
}

pub proof fn lemma_parse_questions_snoc(f: Seq<u8>, p: int, k: nat)
    requires
        parse_questions(f, p, k) is Ok,
        parse_question(f, parse_questions(f, p, k)->Ok_0.1) is Ok,
    ensures
        parse_questions(f, p, k + 1) == Ok::<(Seq<QuestionView>, int), DecodeError>(
            (
                parse_questions(f, p, k)->Ok_0.0.push(
                    parse_question(f, parse_questions(f, p, k)->Ok_0.1)->Ok_0.0,
                ),
                parse_question(f, parse_questions(f, p, k)->Ok_0.1)->Ok_0.1,
            ),
        ),
    decreases k,
{
    if k == 0 {
        let x = parse_question(f, p)->Ok_0;
        assert(parse_questions(f, x.1, 0) == Ok::<(Seq<QuestionView>, int), DecodeError>(
            (seq![], x.1),
        ));
        assert(seq![x.0] + Seq::<QuestionView>::empty() =~= Seq::<QuestionView>::empty().push(x.0));
    } else {
        let (q, p1) = parse_question(f, p)->Ok_0;
        lemma_parse_questions_snoc(f, p1, (k - 1) as nat);
        let rest = parse_questions(f, p1, (k - 1) as nat)->Ok_0.0;
        let last = parse_question(f, parse_questions(f, p, k)->Ok_0.1)->Ok_0.0;
        assert(seq![q] + rest.push(last) =~= (seq![q] + rest).push(last));
    }
}

pub open spec fn rrs_round_trip(rrs: Seq<RrView>) -> bool {
    forall|i: int| 0 <= i < rrs.len() ==> rr_round_trips(#[trigger] rrs[i])
}

pub open spec fn questions_round_trip(qs: Seq<QuestionView>) -> bool {
    forall|i: int| 0 <= i < qs.len() ==> question_round_trips(#[trigger] qs[i])
}

#[verifier::spinoff_prover]
#[verifier::rlimit(40)]
pub proof fn lemma_enc_rrs(f: Seq<u8>, st: (Seq<u8>, Table), rrs: Seq<RrView>)
    requires
        rrs_round_trip(rrs),
        table_sound(f, st.1),
        holds_at(f, st.0.len() as int, appended(st, enc_rrs(st, rrs))),
    ensures
        parse_rrs(f, st.0.len() as int, rrs.len()) == Ok::<(Seq<RrView>, int), DecodeError>(
            (rrs, enc_rrs(st, rrs).0.len() as int),
        ),
        table_sound(f, enc_rrs(st, rrs).1),
    decreases rrs.len(),
{
    if rrs.len() == 0 {
        assert(rrs =~= Seq::<RrView>::empty());
    } else {
        let front = rrs.drop_last();
        let mid = enc_rrs(st, front);
        let end = enc_rrs(st, rrs);
        assert(end == enc_rr(mid, rrs.last()));
        lemma_extends_rrs(st, front);
        lemma_extends_rr(mid, rrs.last());
        lemma_extends_trans(st, mid, end);
        lemma_holds_split(f, st.0.len() as int, appended(st, mid), appended(mid, end));
        assert forall|i: int| 0 <= i < front.len() implies rr_round_trips(#[trigger] front[i]) by {
            assert(front[i] == rrs[i]);
        }
        lemma_enc_rrs(f, st, front);
        assert(rr_round_trips(rrs[rrs.len() - 1]));
        lemma_enc_rr(f, mid, rrs.last());
        lemma_parse_rrs_snoc(f, st.0.len() as int, front.len());
        assert(front.push(rrs.last()) =~= rrs);
    }
}

#[verifier::spinoff_prover]
#[verifier::rlimit(40)]
pub proof fn lemma_enc_questions(f: Seq<u8>, st: (Seq<u8>, Table), qs: Seq<QuestionView>)
    requires
        questions_round_trip(qs),
        table_sound(f, st.1),
        holds_at(f, st.0.len() as int, appended(st, enc_questions(st, qs))),
    ensures
        parse_questions(f, st.0.len() as int, qs.len()) == Ok::<
            (Seq<QuestionView>, int),
            DecodeError,
        >((qs, enc_questions(st, qs).0.len() as int)),
        table_sound(f, enc_questions(st, qs).1),
    decreases qs.len(),
{
    if qs.len() == 0 {
        assert(qs =~= Seq::<QuestionView>::empty());
    } else {
        let front = qs.drop_last();
        let mid = enc_questions(st, front);
        let end = enc_questions(st, qs);
        assert(end == enc_question(mid, qs.last()));
        lemma_extends_questions(st, front);
        lemma_extends_question(mid, qs.last());
        lemma_extends_trans(st, mid, end);
        lemma_holds_split(f, st.0.len() as int, appended(st, mid), appended(mid, end));
        assert forall|i: int| 0 <= i < front.len() implies question_round_trips(#[trigger] front[i]) by {
            assert(front[i] == qs[i]);
        }
        lemma_enc_questions(f, st, front);
        assert(question_round_trips(qs[qs.len() - 1]));
        lemma_enc_question(f, mid, qs.last());
        lemma_parse_questions_snoc(f, st.0.len() as int, front.len());
        assert(front.push(qs.last()) =~= qs);
    }
}


// ---------- Header ----------

pub proof fn lemma_flags_decode(qr: bool, aa: bool, tc: bool, rd: bool, ra: bool, op: u8, rc: u8)
    requires
        op < 16,
        rc < 16,
    ensures
        ({
            let f = flag(qr, 0x8000) | (((op as u16) & 0x0F) << 11u16) | flag(aa, 0x400) | flag(
                tc,
                0x200,
            ) | flag(rd, 0x100) | flag(ra, 0x80) | ((rc as u16) & 0x0F);
            &&& ((f >> 15u16) & 1 == 1) == qr
            &&& ((f >> 11u16) & 0x0F) as u8 == op
            &&& ((f >> 10u16) & 1 == 1) == aa
            &&& ((f >> 9u16) & 1 == 1) == tc
            &&& ((f >> 8u16) & 1 == 1) == rd
            &&& ((f >> 7u16) & 1 == 1) == ra
            &&& (f & 0x0F) as u8 == rc
        }),
{
    let q: u16 = if qr { 0x8000 } else { 0 };
    let a: u16 = if aa { 0x400 } else { 0 };
    let t: u16 = if tc { 0x200 } else { 0 };
    let r: u16 = if rd { 0x100 } else { 0 };
    let v: u16 = if ra { 0x80 } else { 0 };
    let f = q | (((op as u16) & 0x0F) << 11u16) | a | t | r | v | ((rc as u16) & 0x0F);
    assert(((f >> 15u16) & 1 == 1) == (q == 0x8000) && ((f >> 11u16) & 0x0F) as u8 == op && ((f
        >> 10u16) & 1 == 1) == (a == 0x400) && ((f >> 9u16) & 1 == 1) == (t == 0x200) && ((f
        >> 8u16) & 1 == 1) == (r == 0x100) && ((f >> 7u16) & 1 == 1) == (v == 0x80) && (f & 0x0F) as u8
        == rc) by (bit_vector)
        requires
            q == 0x8000 || q == 0,
            a == 0x400 || a == 0,
            t == 0x200 || t == 0,
            r == 0x100 || r == 0,
            v == 0x80 || v == 0,
            op < 16,
            rc < 16,
            f == q | (((op as u16) & 0x0F) << 11u16) | a | t | r | v | ((rc as u16) & 0x0F),
    ;
}

/// An opcode whose four-bit code reads back as itself.
pub open spec fn opcode_round_trips(o: Opcode) -> bool {
    opcode_to_u8(o) < 16 && opcode_from_u8(opcode_to_u8(o)) == o
}

/// An rcode whose four-bit code reads back as itself.
pub open spec fn rcode_round_trips(r: Rcode) -> bool {
    rcode_to_u8(r) < 16 && rcode_from_u8(rcode_to_u8(r)) == r
}

/// A header reads back as itself when its opcode and rcode fit in four
/// bits and are not another variant's code.
pub proof fn lemma_header_round_trip(f: Seq<u8>, h: Header)
    requires
        opcode_round_trips(h.opcode),
        rcode_round_trips(h.rcode),
        holds_at(f, 0, header_bytes(h)),
    ensures
        parse_header(f, 0) == Ok::<(Header, int), DecodeError>((h, 12)),
{
    let b = header_bytes(h);
    lemma_holds_split(f, 0, be16(h.id) + be16(header_flags(h)) + be16(h.qdcount) + be16(h.ancount) + be16(h.nscount), be16(h.arcount));
    lemma_holds_split(f, 0, be16(h.id) + be16(header_flags(h)) + be16(h.qdcount) + be16(h.ancount), be16(h.nscount));
    lemma_holds_split(f, 0, be16(h.id) + be16(header_flags(h)) + be16(h.qdcount), be16(h.ancount));
    lemma_holds_split(f, 0, be16(h.id) + be16(header_flags(h)), be16(h.qdcount));
    lemma_holds_split(f, 0, be16(h.id), be16(header_flags(h)));
    lemma_holds_u16(f, 0, h.id);
    lemma_holds_u16(f, 2, header_flags(h));
    lemma_holds_u16(f, 4, h.qdcount);
    lemma_holds_u16(f, 6, h.ancount);
    lemma_holds_u16(f, 8, h.nscount);
    lemma_holds_u16(f, 10, h.arcount);
    lemma_flags_decode(h.qr, h.aa, h.tc, h.rd, h.ra, opcode_to_u8(h.opcode), rcode_to_u8(h.rcode));
    assert(header_from_words(h.id, header_flags(h), h.qdcount, h.ancount, h.nscount, h.arcount) == h);
}

// ---------- Whole messages ----------

/// A message that reads back as itself: a header whose opcode and rcode
/// round-trip, questions and records that round-trip, and sections that
/// each count at most 65535 entries.
pub open spec fn message_round_trips(m: MessageView) -> bool {
    &&& opcode_round_trips(m.header.opcode)
    &&& rcode_round_trips(m.header.rcode)
    &&& questions_round_trip(m.questions)
    &&& rrs_round_trip(m.answers)
    &&& rrs_round_trip(m.authorities)
    &&& rrs_round_trip(m.additionals)
    &&& m.questions.len() <= 0xFFFF
    &&& m.answers.len() <= 0xFFFF
    &&& m.authorities.len() <= 0xFFFF
    &&& m.additionals.len() <= 0xFFFF
}

/// Decoding what `Message::encode` wrote gives the message back, with the
/// header's counts set to the sections' lengths.
#[verifier::spinoff_prover]
#[verifier::rlimit(80)]
pub proof fn lemma_decode_encode(m: MessageView)
    requires
        message_round_trips(m),
    ensures
        parse_message(message_wire(m)) == Ok::<MessageView, DecodeError>(
            MessageView {
                header: counted_header(m),
                questions: m.questions,
                answers: m.answers,
                authorities: m.authorities,
                additionals: m.additionals,
            },
        ),
{
    let h = counted_header(m);
    let s0 = (header_bytes(h), Seq::<(Labels, u16)>::empty());
    let s1 = enc_questions(s0, m.questions);
    let s2 = enc_rrs(s1, m.answers);
    let s3 = enc_rrs(s2, m.authorities);
    let s4 = enc_rrs(s3, m.additionals);
    let f = s4.0;
    crate::message::lemma_message_wire(m);
    assert(f == message_wire(m));
    lemma_extends_questions(s0, m.questions);
    lemma_extends_rrs(s1, m.answers);
    lemma_extends_rrs(s2, m.authorities);
    lemma_extends_rrs(s3, m.additionals);
    lemma_extends_trans(s0, s1, s2);
    lemma_extends_trans(s0, s2, s3);
    lemma_extends_trans(s0, s3, s4);
    assert(holds_at(f, s0.0.len() as int, appended(s0, s4)));
    lemma_holds_split(f, s0.0.len() as int, appended(s0, s3), appended(s3, s4));
    lemma_holds_split(f, s0.0.len() as int, appended(s0, s2), appended(s2, s3));
    lemma_holds_split(f, s0.0.len() as int, appended(s0, s1), appended(s1, s2));
    assert(holds_at(f, 0, header_bytes(h))) by {
        assert(f.subrange(0, s0.0.len() as int) == s0.0);
    }
    lemma_header_round_trip(f, h);
    assert(table_sound(f, s0.1));
    lemma_enc_questions(f, s0, m.questions);
    lemma_enc_rrs(f, s1, m.answers);
    lemma_enc_rrs(f, s2, m.authorities);
    lemma_enc_rrs(f, s3, m.additionals);
    assert(h.qdcount as nat == m.questions.len());
    assert(h.ancount as nat == m.answers.len());
    assert(h.nscount as nat == m.authorities.len());
    assert(h.arcount as nat == m.additionals.len());
}

// ---------- Codes, names and the OPT TTL ----------

/// Every 16-bit type code, every class code, and every 8-bit opcode and
/// rcode reads as a variant that writes back the same code.
pub proof fn law_codes_round_trip(t: u16, c: u16, op: u8, rc: u8)
    ensures
        qtype_to_u16(qtype_from_u16(t)) == t,
        qclass_to_u16(qclass_from_u16(c)) == c,
        opcode_to_u8(opcode_from_u8(op)) == op,
        rcode_to_u8(rcode_from_u8(rc)) == rc,
{
}

/// A type, class, opcode or rcode that is not an `Other` holding a known
/// code reads back as itself from its code.
pub proof fn law_variants_round_trip(t: QType, c: QClass, op: Opcode, rc: Rcode)
    ensures
        qtype_canonical(t) ==> qtype_from_u16(qtype_to_u16(t)) == t,
        qclass_canonical(c) ==> qclass_from_u16(qclass_to_u16(c)) == c,
        opcode_from_u8(opcode_to_u8(op)) == op || op is Other,
        rcode_from_u8(rcode_to_u8(rc)) == rc || rc is Other,
{
}

/// The text of a name parsed from text is that text without its trailing
/// dots ("." and "" give the root, whose text is ".").
pub proof fn law_name_text_of_parsed(s: Seq<char>)
    ensures
        (s.len() == 0 || s == seq!['.']) ==> name_text(Name::from_str_spec(s)) == seq!['.'],
        !(s.len() == 0 || s == seq!['.']) ==> name_text(Name::from_str_spec(s)) == trim_dots(s),
{
    if !(s.len() == 0 || s == seq!['.']) {
        lemma_dot_split_exists(trim_dots(s));
        let ls = Name::from_str_spec(s);
        assert(is_dot_split(ls, trim_dots(s)));
    } else {
        assert(Name::from_str_spec(s).len() == 0);
    }
}

/// Parsing the text of a name gives the name back, when it has a label,
/// no label holds a dot and the last label is not empty.
pub proof fn law_name_parsed_from_text(ls: Labels)
    requires
        ls.len() > 0,
        forall|i: int| 0 <= i < ls.len() ==> has_no_dot(#[trigger] ls[i]),
        ls.last().len() > 0,
    ensures
        Name::from_str_spec(name_text(ls)) == ls,
{
    let s = name_text(ls);
    assert(is_dot_split(ls, s));
    lemma_join_ends_with_last(ls);
    assert(s.len() > 0);
    assert(s.last() != '.');
    assert(trim_dots(s) == s);
    if s == seq!['.'] {
        assert(s.last() == '.');
    }
    let c = choose|l: Labels| is_dot_split(l, trim_dots(s));
    lemma_dot_split_unique(c, ls, s);
}

proof fn lemma_join_ends_with_last(ls: Labels)
    requires
        ls.len() > 0,
    ensures
        join_dots(ls).len() >= ls.last().len(),
        ls.last().len() > 0 ==> join_dots(ls).last() == ls.last().last(),
{
}

/// Every text has a split at its dots.
proof fn lemma_dot_split_exists(s: Seq<char>)
    ensures
        exists|ls: Labels| is_dot_split(ls, s),
    decreases s.len(),
{
    if s.len() == 0 {
        let ls = seq![Seq::<char>::empty()];
        assert(join_dots(ls) == ls[0]);
        assert(s =~= ls[0]);
        assert(is_dot_split(ls, s));
    } else {
        lemma_dot_split_exists(s.drop_last());
        let ls = choose|ls: Labels| is_dot_split(ls, s.drop_last());
        let c = s.last();
        if c == '.' {
            let ls2 = ls.push(Seq::<char>::empty());
            assert(ls2.drop_last() =~= ls);
            assert(join_dots(ls2) =~= s);
            assert forall|i: int| 0 <= i < ls2.len() implies has_no_dot(#[trigger] ls2[i]) by {
                if i < ls.len() {
                    assert(ls2[i] == ls[i]);
                }
            }
            assert(is_dot_split(ls2, s));
        } else {
            let ls2 = ls.drop_last().push(ls.last().push(c));
            assert(ls2.drop_last() =~= ls.drop_last());
            assert(s =~= s.drop_last().push(c));
            if ls.len() == 1 {
                assert(join_dots(ls) == ls[0]);
                assert(ls2[0] == ls.last().push(c));
                assert(join_dots(ls2) == ls2[0]);
                assert(join_dots(ls2) =~= s);
            } else {
                assert(join_dots(ls2) =~= join_dots(ls.drop_last()) + seq!['.'] + ls.last().push(c));
                assert(join_dots(ls2) =~= s);
            }
            assert forall|i: int| 0 <= i < ls2.len() implies has_no_dot(#[trigger] ls2[i]) by {
                if i < ls.len() - 1 {
                    assert(ls2[i] == ls[i]);
                } else {
                    assert(has_no_dot(ls[i]));
                }
            }
            assert(is_dot_split(ls2, s));
        }
    }
}

/// The OPT TTL field reads back as the extended rcode, version and flags
/// it was packed from.
pub proof fn law_opt_ttl_unpacks(ext: u8, version: u8, flags: u16)
    ensures
        ({
            let t = ((ext as u32) << 24u32) | ((version as u32) << 16u32) | (flags as u32);
            (t >> 24u32) as u8 == ext && (t >> 16u32) as u8 == version && t as u16 == flags
        }),
{
    assert(({
        let t = ((ext as u32) << 24u32) | ((version as u32) << 16u32) | (flags as u32);
        (t >> 24u32) as u8 == ext && (t >> 16u32) as u8 == version && t as u16 == flags
    })) by (bit_vector);
}

/// A header reads back from its twelve bytes as itself, when its opcode
/// and rcode fit in four bits and are not another variant's code.
pub proof fn law_header_round_trip(h: Header)
    requires
        opcode_round_trips(h.opcode),
        rcode_round_trips(h.rcode),
    ensures
        parse_header(header_bytes(h), 0) == Ok::<(Header, int), DecodeError>((h, 12)),
{
    let f = header_bytes(h);
    assert(f.subrange(0, f.len() as int) =~= f);
    lemma_header_round_trip(f, h);
}

// ---------- Queries ----------

proof fn lemma_labels_wire_len(ls: Labels)
    requires
        forall|i: int| 0 <= i < ls.len() ==> valid_label(#[trigger] ls[i]),
    ensures
        labels_wire(ls).len() <= 64 * ls.len(),
    decreases ls.len(),
{
    if ls.len() > 0 {
        assert forall|i: int| 0 <= i < ls.drop_last().len() implies valid_label(#[trigger] ls.drop_last()[i]) by {
            assert(ls.drop_last()[i] == ls[i]);
        }
        lemma_labels_wire_len(ls.drop_last());
        assert(valid_label(ls[ls.len() - 1]));
    }
}

/// A query for a name whose labels are valid, of a type that reads back as
/// itself, decodes from its wire form to itself.
pub proof fn law_query_round_trip(id: u16, name: Seq<char>, qtype: QType)
    requires
        valid_name(Name::from_str_spec(name)),
        qtype_canonical(qtype),
    ensures
        parse_message(message_wire(query_view(id, name, qtype))) == Ok::<MessageView, DecodeError>(
            query_view(id, name, qtype),
        ),
{
    let q = query_view(id, name, qtype);
    let qv = q.questions[0];
    assert(question_round_trips(qv));
    assert(questions_round_trip(q.questions));
    assert(rrs_round_trip(q.answers));
    assert(rrs_round_trip(q.authorities));
    assert(rrs_round_trip(q.additionals));
    assert(counted_header(q) == q.header);
    assert(message_round_trips(q));
    lemma_decode_encode(q);
}

// ---------- Each part on its own ----------

/// A header written after any bytes reads back there as itself, when its
/// opcode and rcode fit in four bits and are not another variant's code.
#[verifier::spinoff_prover]
#[verifier::rlimit(40)]
pub proof fn law_header_round_trip_at(out: Seq<u8>, h: Header)
    requires
        opcode_round_trips(h.opcode),
        rcode_round_trips(h.rcode),
    ensures
        parse_header(out + header_bytes(h), out.len() as int) == Ok::<(Header, int), DecodeError>(
            (h, out.len() as int + 12),
        ),
{
    let f = out + header_bytes(h);
    let p = out.len() as int;
    assert(f.subrange(p, p + header_bytes(h).len()) =~= header_bytes(h));
    lemma_holds_split(f, p, be16(h.id) + be16(header_flags(h)) + be16(h.qdcount) + be16(h.ancount) + be16(h.nscount), be16(h.arcount));
    lemma_holds_split(f, p, be16(h.id) + be16(header_flags(h)) + be16(h.qdcount) + be16(h.ancount), be16(h.nscount));
    lemma_holds_split(f, p, be16(h.id) + be16(header_flags(h)) + be16(h.qdcount), be16(h.ancount));
    lemma_holds_split(f, p, be16(h.id) + be16(header_flags(h)), be16(h.qdcount));
    lemma_holds_split(f, p, be16(h.id), be16(header_flags(h)));
    lemma_holds_u16(f, p, h.id);
    lemma_holds_u16(f, p + 2, header_flags(h));
    lemma_holds_u16(f, p + 4, h.qdcount);
    lemma_holds_u16(f, p + 6, h.ancount);
    lemma_holds_u16(f, p + 8, h.nscount);
    lemma_holds_u16(f, p + 10, h.arcount);
    lemma_flags_decode(h.qr, h.aa, h.tc, h.rd, h.ra, opcode_to_u8(h.opcode), rcode_to_u8(h.rcode));
    assert(header_from_words(h.id, header_flags(h), h.qdcount, h.ancount, h.nscount, h.arcount) == h);
}

/// A valid name written after any bytes, with a table whose every entry is
/// a name spelled out at its offset in those bytes, reads back there as
/// itself and ends where its encoding ends.
pub proof fn law_name_round_trip(out: Seq<u8>, t: Table, ls: Labels)
    requires
        valid_name(ls),
        table_sound(out + name_wire(ls, t), t),
    ensures
        parse_name(out + name_wire(ls, t), out.len() as int) == Ok::<(Labels, int), DecodeError>(
            (ls, out.len() as int + name_wire(ls, t).len()),
        ),
{
    let f = out + name_wire(ls, t);
    let p = out.len() as int;
    assert(f.subrange(p, p + name_wire(ls, t).len()) =~= name_wire(ls, t));
    lemma_enc_name(f, (out, t), ls);
}

/// TXT strings of at most 255 bytes each, written after any bytes, read
/// back there as themselves over the length they were written in.
pub proof fn law_txt_round_trip(out: Seq<u8>, t: Labels)
    requires
        txt_strings_fit(t),
    ensures
        parse_txt(out + labels_wire(t), out.len() as int, labels_wire(t).len() as int) == Ok::<
            (Labels, int),
            DecodeError,
        >((t, out.len() as int + labels_wire(t).len())),
{
    let f = out + labels_wire(t);
    let p = out.len() as int;
    assert(f.subrange(p, p + labels_wire(t).len()) =~= labels_wire(t));
    lemma_parse_txt_raw(f, p, t, p + labels_wire(t).len());
    lemma_lossy_raw_labels(t);
}

// ---------- The numbers on the wire (RFC 1035, RFC 3596, RFC 6891) ----------

/// Response codes carry the numbers RFC 1035 gives them: NOERROR 0,
/// FORMERR 1, SERVFAIL 2, NXDOMAIN 3, NOTIMP 4, REFUSED 5; each of these
/// numbers reads as that code, and any other as itself.
pub proof fn law_rcode_numbers(r: Rcode, v: u8)
    ensures
        r == Rcode::NoError ==> rcode_to_u8(r) == 0,
        r == Rcode::FormErr ==> rcode_to_u8(r) == 1,
        r == Rcode::ServFail ==> rcode_to_u8(r) == 2,
        r == Rcode::NxDomain ==> rcode_to_u8(r) == 3,
        r == Rcode::NotImp ==> rcode_to_u8(r) == 4,
        r == Rcode::Refused ==> rcode_to_u8(r) == 5,
        r matches Rcode::Other(w) ==> rcode_to_u8(r) == w,
        v == 0 ==> rcode_from_u8(v) == Rcode::NoError,
        v == 1 ==> rcode_from_u8(v) == Rcode::FormErr,
        v == 2 ==> rcode_from_u8(v) == Rcode::ServFail,
        v == 3 ==> rcode_from_u8(v) == Rcode::NxDomain,
        v == 4 ==> rcode_from_u8(v) == Rcode::NotImp,
        v == 5 ==> rcode_from_u8(v) == Rcode::Refused,
        v > 5 ==> rcode_from_u8(v) == Rcode::Other(v),
{
}

/// Opcodes carry their RFC 1035 numbers: QUERY 0, IQUERY 1, STATUS 2.
pub proof fn law_opcode_numbers(o: Opcode, v: u8)
    ensures
        o == Opcode::Query ==> opcode_to_u8(o) == 0,
        o == Opcode::IQuery ==> opcode_to_u8(o) == 1,
        o == Opcode::Status ==> opcode_to_u8(o) == 2,
        o matches Opcode::Other(w) ==> opcode_to_u8(o) == w,
        v == 0 ==> opcode_from_u8(v) == Opcode::Query,
        v == 1 ==> opcode_from_u8(v) == Opcode::IQuery,
        v == 2 ==> opcode_from_u8(v) == Opcode::Status,
        v > 2 ==> opcode_from_u8(v) == Opcode::Other(v),
{
}

/// Record types carry their registered numbers: A 1, NS 2, CNAME 5, SOA 6,
/// PTR 12, MX 15, TXT 16, AAAA 28, OPT 41, ANY 255; class IN is 1. Reading
/// gives the named type for each of these numbers but 41, which reads as
/// `Other(41)`, and any other number reads as itself.
pub proof fn law_type_and_class_numbers(t: QType, v: u16)
    ensures
        t == QType::A ==> qtype_to_u16(t) == 1,
        t == QType::NS ==> qtype_to_u16(t) == 2,
        t == QType::CNAME ==> qtype_to_u16(t) == 5,
        t == QType::SOA ==> qtype_to_u16(t) == 6,
        t == QType::PTR ==> qtype_to_u16(t) == 12,
        t == QType::MX ==> qtype_to_u16(t) == 15,
        t == QType::TXT ==> qtype_to_u16(t) == 16,
        t == QType::AAAA ==> qtype_to_u16(t) == 28,
        t == QType::OPT ==> qtype_to_u16(t) == 41,
        t == QType::ANY ==> qtype_to_u16(t) == 255,
        t matches QType::Other(w) ==> qtype_to_u16(t) == w,
        v == 1 ==> qtype_from_u16(v) == QType::A,
        v == 2 ==> qtype_from_u16(v) == QType::NS,
        v == 5 ==> qtype_from_u16(v) == QType::CNAME,
        v == 6 ==> qtype_from_u16(v) == QType::SOA,
        v == 12 ==> qtype_from_u16(v) == QType::PTR,
        v == 15 ==> qtype_from_u16(v) == QType::MX,
        v == 16 ==> qtype_from_u16(v) == QType::TXT,
        v == 28 ==> qtype_from_u16(v) == QType::AAAA,
        v == 255 ==> qtype_from_u16(v) == QType::ANY,
        !(v == 1 || v == 2 || v == 5 || v == 6 || v == 12 || v == 15 || v == 16 || v == 28 || v
            == 255) ==> qtype_from_u16(v) == QType::Other(v),
        qclass_to_u16(QClass::IN) == 1,
        qclass_from_u16(1) == QClass::IN,
        v != 1 ==> qclass_from_u16(v) == QClass::Other(v),
{
}

/// On the wire, the response code is the low four bits of a header's
/// fourth byte: a decoded header's code is the RFC 1035 code of those bits
/// (so a flags word 0x8182 is a SERVFAIL response), and a written header
/// puts its code's number there.
#[verifier::spinoff_prover]
pub proof fn law_rcode_on_the_wire(buf: Seq<u8>, p: int, h: Header)
    requires
        0 <= p,
        p + 12 <= buf.len(),
    ensures
        ({
            let n = buf[p + 3] % 16;
            let d = parse_header(buf, p)->Ok_0.0;
            &&& n == 0 ==> d.rcode == Rcode::NoError
            &&& n == 1 ==> d.rcode == Rcode::FormErr
            &&& n == 2 ==> d.rcode == Rcode::ServFail
            &&& n == 3 ==> d.rcode == Rcode::NxDomain
            &&& n == 4 ==> d.rcode == Rcode::NotImp
            &&& n == 5 ==> d.rcode == Rcode::Refused
            &&& n > 5 ==> d.rcode == Rcode::Other(n as u8)
        }),
        h.rcode == Rcode::ServFail ==> header_bytes(h)[3] % 16 == 2,
        h.rcode == Rcode::FormErr ==> header_bytes(h)[3] % 16 == 1,
        h.rcode == Rcode::NxDomain ==> header_bytes(h)[3] % 16 == 3,
        h.rcode == Rcode::NoError ==> header_bytes(h)[3] % 16 == 0,
{
    let hi = buf[p + 2];
    let lo = buf[p + 3];
    let flags = u16_at(buf, p + 2);
    assert(flags == (hi * 256 + lo) as u16);
    assert((((hi as u16) * 256 + (lo as u16)) as u16) & 0x0F == (lo % 16) as u16) by (bit_vector);
    let f = header_flags(h);
    let c = rcode_to_u8(h.rcode);
    let rest = flag(h.qr, 0x8000) | (((opcode_to_u8(h.opcode) as u16) & 0x0F) << 11u16) | flag(h.aa, 0x400)
        | flag(h.tc, 0x200) | flag(h.rd, 0x100) | flag(h.ra, 0x80);
    assert(f == rest | ((c as u16) & 0x0F));
    assert(rest & 0x0F == 0) by {
        let a = flag(h.qr, 0x8000);
        let b = ((opcode_to_u8(h.opcode) as u16) & 0x0F) << 11u16;
        let c1 = flag(h.aa, 0x400);
        let d1 = flag(h.tc, 0x200);
        let e1 = flag(h.rd, 0x100);
        let g1 = flag(h.ra, 0x80);
        assert(a == 0 || a == 0x8000);
        assert(c1 == 0 || c1 == 0x400);
        assert(d1 == 0 || d1 == 0x200);
        assert(e1 == 0 || e1 == 0x100);
        assert(g1 == 0 || g1 == 0x80);
        let op = opcode_to_u8(h.opcode);
        assert((a == 0 || a == 0x8000) && (c1 == 0 || c1 == 0x400) && (d1 == 0 || d1 == 0x200) && (e1
            == 0 || e1 == 0x100) && (g1 == 0 || g1 == 0x80) ==> (a | (((op as u16) & 0x0F) << 11u16)
            | c1 | d1 | e1 | g1) & 0x0F == 0) by (bit_vector);
    }
    assert((f % 256) % 16 == (c as u16) & 0x0F) by (bit_vector)
        requires
            f == rest | ((c as u16) & 0x0F),
            rest & 0x0F == 0,
    ;
    assert((c as u16) & 0x0F == (c % 16) as u16) by (bit_vector);
    assert(header_bytes(h)[3] == (f % 256) as u8);
    assert(header_bytes(h)[3] % 16 == c % 16);
}

/// Where each header field sits on the wire (RFC 1035 4.1.1): the id in
/// the first two bytes, most significant first; in the third byte QR as its
/// top bit, then the four opcode bits, then AA, TC and RD; in the fourth RA
/// as its top bit, three zero bits, then the four rcode bits; then the four
/// counts, each in two bytes, most significant first.
#[verifier::spinoff_prover]
pub proof fn law_header_layout(h: Header)
    requires
        opcode_to_u8(h.opcode) < 16,
        rcode_to_u8(h.rcode) < 16,
    ensures
        ({
            let b = header_bytes(h);
            &&& b.len() == 12
            &&& b[0] as int == h.id / 256 && b[1] as int == h.id % 256
            &&& (b[2] >= 128) == h.qr
            &&& (b[2] / 8) % 16 == opcode_to_u8(h.opcode)
            &&& ((b[2] / 4) % 2 == 1) == h.aa
            &&& ((b[2] / 2) % 2 == 1) == h.tc
            &&& (b[2] % 2 == 1) == h.rd
            &&& (b[3] >= 128) == h.ra
            &&& (b[3] / 16) % 8 == 0
            &&& b[3] % 16 == rcode_to_u8(h.rcode)
            &&& b[4] as int == h.qdcount / 256 && b[5] as int == h.qdcount % 256
            &&& b[6] as int == h.ancount / 256 && b[7] as int == h.ancount % 256
            &&& b[8] as int == h.nscount / 256 && b[9] as int == h.nscount % 256
            &&& b[10] as int == h.arcount / 256 && b[11] as int == h.arcount % 256
        }),
{
    let f = header_flags(h);
    let op = opcode_to_u8(h.opcode);
    let rc = rcode_to_u8(h.rcode);
    let q = flag(h.qr, 0x8000);
    let a = flag(h.aa, 0x400);
    let t = flag(h.tc, 0x200);
    let d = flag(h.rd, 0x100);
    let r = flag(h.ra, 0x80);
    assert(f == q | (((op as u16) & 0x0F) << 11u16) | a | t | d | r | ((rc as u16) & 0x0F));
    let hi = f / 256;
    let lo = f % 256;
    assert(
        (hi >= 128) == (q == 0x8000) && (hi / 8) % 16 == op as u16 && ((hi / 4) % 2 == 1) == (a == 0x400)
            && ((hi / 2) % 2 == 1) == (t == 0x200) && (hi % 2 == 1) == (d == 0x100) && (lo >= 128) == (r
            == 0x80) && (lo / 16) % 8 == 0 && lo % 16 == rc as u16
    ) by (bit_vector)
        requires
            f == q | (((op as u16) & 0x0F) << 11u16) | a | t | d | r | ((rc as u16) & 0x0F),
            hi == f / 256,
            lo == f % 256,
            q == 0 || q == 0x8000,
            a == 0 || a == 0x400,
            t == 0 || t == 0x200,
            d == 0 || d == 0x100,
            r == 0 || r == 0x80,
            op < 16,
            rc < 16,
    ;
}

} // verus!
