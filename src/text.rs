//! Writing records back in master file form.

use vstd::prelude::*;
use crate::scan::{LexState, ends_word, lex};
use crate::entry::{dot_parts, is_quad, octet_of, EntryView, RdataView, RecordView, entry_spec, header, rdata_spec, class_of, digits_value, escape_spec, is_digit, name_of, number_of, rdata_view, record_view, split_name, type_of};
use crate::name::{fold, valid_name};
use crate::iana::{Class, Rtype};
use crate::name::DName;
use crate::rdata::{MasterRecord, MasterRecordData};
use crate::reader::{ItemView, ReaderItem, ReaderState, last_class_of, last_owner_of, read_next};

verus! {

/// The decimal digits of `n`.
pub open spec fn decimal(n: nat) -> Seq<u8>
    decreases n,
{
    if n < 10 {
        seq![(48 + n) as u8]
    } else {
        decimal(n / 10).push((48 + n % 10) as u8)
    }
}

/// The decimal digits of `n`, which read back as `n`.
pub fn number_text(n: u32) -> (r: Vec<u8>)
    ensures
        r@ == decimal(n as nat),
        number_of(r@) == Some(n),
    decreases n,
{
    if n < 10 {
        let mut r: Vec<u8> = Vec::new();
        r.push(48 + n as u8);
        assert(r@.drop_last() =~= Seq::<u8>::empty());
        assert(digits_value(Seq::<u8>::empty()) == 0);
        assert(r@.last() == 48 + n as u8);
        assert(digits_value(r@) == n);
        assert(is_digit(r@[0]));
        assert(r@ =~= decimal(n as nat));
        r
    } else {
        let mut r = number_text(n / 10);
        let d = (n % 10) as u8;
        let ghost before = r@;
        r.push(48 + d);
        proof {
            assert(r@.drop_last() =~= before);
            assert(digits_value(before) == n / 10);
            assert(digits_value(r@) == (n / 10) as nat * 10 + (n % 10) as nat);
            assert((n / 10) as nat * 10 + (n % 10) as nat == n as nat) by (nonlinear_arith);
            assert(digits_value(r@) == n);
            assert(r@ =~= decimal(n as nat));
            assert forall|i: int| 0 <= i < r@.len() implies is_digit(#[trigger] r@[i]) by {
                if i < before.len() {
                    assert(r@[i] == before[i]);
                }
            }
        }
        r
    }
}

/// Appends `src` to `dst`.
fn append(dst: &mut Vec<u8>, src: &Vec<u8>)
    ensures
        final(dst)@ == old(dst)@ + src@,
{
    let mut i: usize = 0;
    while i < src.len()
        invariant
            i <= src@.len(),
            dst@ == old(dst)@ + src@.subrange(0, i as int),
        decreases src@.len() - i,
    {
        dst.push(src[i]);
        i += 1;
        assert(old(dst)@ + src@.subrange(0, i as int) =~= old(dst)@ + src@.subrange(0, i - 1) + seq![src@[i - 1]]);
    }
    assert(src@.subrange(0, src@.len() as int) =~= src@);
}

/// Whether a byte can stand as it is in a word: printable, and none of
/// the bytes the master file syntax gives a meaning.
pub open spec fn plain_byte(b: u8) -> bool {
    33 <= b && b <= 126 && b != 34 && b != 40 && b != 41 && b != 46 && b != 59 && b != 92 && b != 64 && b != 36
}

/// The text of byte `b` in a word: itself, or `\DDD`.
pub open spec fn esc_byte(b: u8) -> Seq<u8> {
    if plain_byte(b) {
        seq![b]
    } else {
        seq![92u8, (48 + b / 100) as u8, (48 + (b / 10) % 10) as u8, (48 + b % 10) as u8]
    }
}

/// The text of a label.
pub open spec fn esc_label(l: Seq<u8>) -> Seq<u8>
    decreases l.len(),
{
    if l.len() == 0 {
        Seq::empty()
    } else {
        esc_byte(l[0]) + esc_label(l.subrange(1, l.len() as int))
    }
}

/// The text of a name with at least one label: each label followed by a dot.
pub open spec fn name_text(ls: Seq<Seq<u8>>) -> Seq<u8>
    decreases ls.len(),
{
    if ls.len() == 0 {
        Seq::empty()
    } else {
        esc_label(ls[0]) + seq![46u8] + name_text(ls.subrange(1, ls.len() as int))
    }
}

proof fn lemma_esc_label_push(l: Seq<u8>, b: u8)
    ensures
        esc_label(l.push(b)) == esc_label(l) + esc_byte(b),
    decreases l.len(),
{
    if l.len() == 0 {
        assert(l.push(b).subrange(1, 1) =~= Seq::<u8>::empty());
        assert(esc_label(Seq::<u8>::empty()) =~= Seq::<u8>::empty());
        assert(l.push(b)[0] == b);
        assert(esc_label(l.push(b)) =~= esc_byte(b));
        assert(esc_label(l) + esc_byte(b) =~= esc_byte(b));
    } else {
        lemma_esc_label_push(l.subrange(1, l.len() as int), b);
        assert(l.push(b).subrange(1, l.len() as int + 1) =~= l.subrange(1, l.len() as int).push(b));
        assert(esc_label(l.push(b)) =~= esc_label(l) + esc_byte(b));
    }
}

proof fn lemma_name_text_push(ls: Seq<Seq<u8>>, l: Seq<u8>)
    ensures
        name_text(ls.push(l)) == name_text(ls) + esc_label(l) + seq![46u8],
    decreases ls.len(),
{
    if ls.len() == 0 {
        assert(ls.push(l).subrange(1, 1) =~= Seq::<Seq<u8>>::empty());
        assert(name_text(Seq::<Seq<u8>>::empty()) =~= Seq::<u8>::empty());
        assert(ls.push(l)[0] == l);
        assert(name_text(ls.push(l)) =~= esc_label(l) + seq![46u8]);
        assert(name_text(ls) + esc_label(l) + seq![46u8] =~= esc_label(l) + seq![46u8]);
    } else {
        lemma_name_text_push(ls.subrange(1, ls.len() as int), l);
        assert(ls.push(l).subrange(1, ls.len() as int + 1) =~= ls.subrange(1, ls.len() as int).push(l));
        assert(name_text(ls.push(l)) =~= name_text(ls) + esc_label(l) + seq![46u8]);
    }
}

/// Appends byte `b` as it stands in a word, escaped where it must be.
fn push_escaped(out: &mut Vec<u8>, b: u8)
    ensures
        final(out)@ == old(out)@ + esc_byte(b),
{
    if 33 <= b && b <= 126 && b != 34 && b != 40 && b != 41 && b != 46 && b != 59 && b != 92 && b != 64 && b != 36 {
        out.push(b);
    } else {
        out.push(92);
        out.push(48 + b / 100);
        out.push(48 + (b / 10) % 10);
        out.push(48 + b % 10);
    }
    assert(out@ =~= old(out)@ + esc_byte(b));
}

/// The name's text, the root as a lone dot.
pub open spec fn dname_text(ls: Seq<Seq<u8>>) -> Seq<u8> {
    if ls.len() == 0 { seq![46u8] } else { name_text(ls) }
}

pub open spec fn class_text(c: Class) -> Seq<u8> {
    match c {
        Class::In => seq![73u8, 78u8],
        Class::Ch => seq![67u8, 72u8],
        Class::Hs => seq![72u8, 83u8],
        Class::NoneClass => seq![78u8, 79u8, 78u8, 69u8],
        Class::Any => seq![42u8],
        Class::Int(v) => seq![67u8, 76u8, 65u8, 83u8, 83u8] + decimal(v as nat),
    }
}

pub open spec fn type_text(t: Rtype) -> Seq<u8> {
    match t {
        Rtype::A => seq![65u8],
        Rtype::Ns => seq![78u8, 83u8],
        Rtype::Cname => seq![67u8, 78u8, 65u8, 77u8, 69u8],
        Rtype::Soa => seq![83u8, 79u8, 65u8],
        Rtype::Ptr => seq![80u8, 84u8, 82u8],
        Rtype::Mx => seq![77u8, 88u8],
        Rtype::Txt => seq![84u8, 88u8, 84u8],
        Rtype::Int(v) => seq![84u8, 89u8, 80u8, 69u8] + decimal(v as nat),
    }
}

/// A byte inside a quoted word: escaped if it is a quote, a backslash or
/// not printable.
pub open spec fn qbyte(b: u8) -> Seq<u8> {
    if b == 34 || b == 92 || b < 32 || b > 126 { esc_byte(b) } else { seq![b] }
}

pub open spec fn qtext(s: Seq<u8>) -> Seq<u8>
    decreases s.len(),
{
    if s.len() == 0 { Seq::empty() } else { qtext(s.drop_last()) + qbyte(s.last()) }
}

/// Character strings, each quoted, separated by blanks.
pub open spec fn txt_text(ss: Seq<Seq<u8>>) -> Seq<u8>
    decreases ss.len(),
{
    if ss.len() == 0 {
        Seq::empty()
    } else if ss.len() == 1 {
        seq![34u8] + qtext(ss[0]) + seq![34u8]
    } else {
        txt_text(ss.drop_last()) + seq![32u8, 34u8] + qtext(ss.last()) + seq![34u8]
    }
}

/// The text of record data.
pub open spec fn rdata_text(d: RdataView) -> Seq<u8> {
    match d {
        RdataView::A(a) => decimal(a[0] as nat) + seq![46u8] + decimal(a[1] as nat) + seq![46u8]
            + decimal(a[2] as nat) + seq![46u8] + decimal(a[3] as nat),
        RdataView::Ns(n) => dname_text(n),
        RdataView::Cname(n) => dname_text(n),
        RdataView::Ptr(n) => dname_text(n),
        RdataView::Mx(p, n) => decimal(p as nat) + seq![32u8] + dname_text(n),
        RdataView::Soa(m, r, a, b, c, d, e) => dname_text(m) + seq![32u8] + dname_text(r) + seq![32u8]
            + decimal(a as nat) + seq![32u8] + decimal(b as nat) + seq![32u8] + decimal(c as nat)
            + seq![32u8] + decimal(d as nat) + seq![32u8] + decimal(e as nat),
        RdataView::Txt(t) => txt_text(t),
    }
}

/// The line of a record: owner, TTL, class, type and data, separated by
/// blanks and ended by a line feed.
pub open spec fn record_text(r: RecordView, t: Rtype) -> Seq<u8> {
    dname_text(r.owner) + seq![32u8] + decimal(r.ttl as nat) + seq![32u8] + class_text(r.class) + seq![32u8]
        + type_text(t) + seq![32u8] + rdata_text(r.rdata) + seq![10u8]
}

impl DName {
    /// The name in master file form: its labels, escaped where needed, each
    /// followed by a dot; the root is a lone dot.
    pub fn to_text(&self) -> (r: Vec<u8>)
        ensures
            r@ == (if self@.len() == 0 { seq![46u8] } else { name_text(self@) }),
    {
        let mut out: Vec<u8> = Vec::new();
        if self.len() == 0 {
            out.push(46);
            assert(out@ =~= seq![46u8]);
            return out;
        }
        let mut i: usize = 0;
        proof {
            assert(self@.subrange(0, 0) =~= Seq::<Seq<u8>>::empty());
            assert(out@ =~= name_text(Seq::<Seq<u8>>::empty()));
        }
        while i < self.len()
            invariant
                i <= self@.len(),
                self@.len() > 0,
                out@ == name_text(self@.subrange(0, i as int)),
            decreases self@.len() - i,
        {
            let label = self.label(i);
            let ghost base = out@;
            let mut k: usize = 0;
            proof {
                assert(label@.subrange(0, 0) =~= Seq::<u8>::empty());
                assert(base + esc_label(Seq::<u8>::empty()) =~= base);
            }
            while k < label.len()
                invariant
                    k <= label@.len(),
                    out@ == base + esc_label(label@.subrange(0, k as int)),
                decreases label@.len() - k,
            {
                proof {
                    lemma_esc_label_push(label@.subrange(0, k as int), label@[k as int]);
                    assert(label@.subrange(0, k as int).push(label@[k as int]) =~= label@.subrange(0, k as int + 1));
                }
                push_escaped(&mut out, label[k]);
                k += 1;
            }
            out.push(46);
            proof {
                assert(label@.subrange(0, label@.len() as int) =~= label@);
                lemma_name_text_push(self@.subrange(0, i as int), label@);
                assert(self@.subrange(0, i as int).push(label@) =~= self@.subrange(0, i as int + 1));
                assert(out@ =~= base + esc_label(label@) + seq![46u8]);
            }
            i += 1;
        }
        proof {
            assert(self@.subrange(0, self@.len() as int) =~= self@);
        }
        out
    }
}

impl Class {
    /// The class's mnemonic, which reads back as the class where the reader
    /// knows it.
    pub fn to_text(&self) -> (r: Vec<u8>)
        ensures
            r@ == class_text(*self),
            (*self is In || *self is Ch || *self is Hs) ==> class_of(r@) == Some(*self),
    {
        match self {
            Class::In => {
                let r = vec![73u8, 78u8];
                assert(r@ =~= seq![73u8, 78u8]);
                assert(fold(r@) =~= seq![105u8, 110u8]);
                r
            },
            Class::Ch => {
                let r = vec![67u8, 72u8];
                assert(r@ =~= seq![67u8, 72u8]);
                assert(fold(r@) =~= seq![99u8, 104u8]);
                assert(fold(r@) != seq![105u8, 110u8]);
                r
            },
            Class::Hs => {
                let r = vec![72u8, 83u8];
                assert(r@ =~= seq![72u8, 83u8]);
                assert(fold(r@) =~= seq![104u8, 115u8]);
                assert(fold(r@) != seq![105u8, 110u8]);
                assert(fold(r@) != seq![99u8, 104u8]);
                r
            },
            Class::NoneClass => {
                let r = vec![78u8, 79u8, 78u8, 69u8];
                assert(r@ =~= seq![78u8, 79u8, 78u8, 69u8]);
                r
            },
            Class::Any => {
                let r = vec![42u8];
                assert(r@ =~= seq![42u8]);
                r
            },
            Class::Int(v) => {
                let mut r = vec![67u8, 76u8, 65u8, 83u8, 83u8];
                assert(r@ =~= seq![67u8, 76u8, 65u8, 83u8, 83u8]);
                let digits = number_text(*v as u32);
                append(&mut r, &digits);
                r
            },
        }
    }
}

impl Rtype {
    /// The type's mnemonic, which reads back as the type where the reader
    /// knows it.
    pub fn to_text(&self) -> (r: Vec<u8>)
        ensures
            r@ == type_text(*self),
            !(*self is Int) ==> type_of(r@) == Some(*self),
    {
        match self {
            Rtype::A => {
                let r = vec![65u8];
                assert(r@ =~= seq![65u8]);
                assert(fold(r@) =~= seq![97u8]);
                r
            },
            Rtype::Ns => {
                let r = vec![78u8, 83u8];
                assert(r@ =~= seq![78u8, 83u8]);
                assert(fold(r@) =~= seq![110u8, 115u8]);
                assert(fold(r@) != seq![97u8]);
                r
            },
            Rtype::Cname => {
                let r = vec![67u8, 78u8, 65u8, 77u8, 69u8];
                assert(r@ =~= seq![67u8, 78u8, 65u8, 77u8, 69u8]);
                assert(fold(r@) =~= seq![99u8, 110u8, 97u8, 109u8, 101u8]);
                assert(fold(r@).len() == 5);
                r
            },
            Rtype::Soa => {
                let r = vec![83u8, 79u8, 65u8];
                assert(r@ =~= seq![83u8, 79u8, 65u8]);
                assert(fold(r@) =~= seq![115u8, 111u8, 97u8]);
                assert(fold(r@)[0] == 115u8);
                r
            },
            Rtype::Ptr => {
                let r = vec![80u8, 84u8, 82u8];
                assert(r@ =~= seq![80u8, 84u8, 82u8]);
                assert(fold(r@) =~= seq![112u8, 116u8, 114u8]);
                assert(fold(r@)[0] == 112u8);
                r
            },
            Rtype::Mx => {
                let r = vec![77u8, 88u8];
                assert(r@ =~= seq![77u8, 88u8]);
                assert(fold(r@) =~= seq![109u8, 120u8]);
                assert(fold(r@)[0] == 109u8);
                r
            },
            Rtype::Txt => {
                let r = vec![84u8, 88u8, 84u8];
                assert(r@ =~= seq![84u8, 88u8, 84u8]);
                assert(fold(r@) =~= seq![116u8, 120u8, 116u8]);
                assert(fold(r@)[0] == 116u8);
                r
            },
            Rtype::Int(v) => {
                let mut r = vec![84u8, 89u8, 80u8, 69u8];
                assert(r@ =~= seq![84u8, 89u8, 80u8, 69u8]);
                let digits = number_text(*v as u32);
                append(&mut r, &digits);
                r
            },
        }
    }
}

impl MasterRecordData {
    /// The data in master file form.
    pub fn to_text(&self) -> (r: Vec<u8>)
        ensures
            r@ == rdata_text(rdata_view(*self)),
    {
        let mut out: Vec<u8> = Vec::new();
        match self {
            MasterRecordData::A(a) => {
                append(&mut out, &number_text(a[0] as u32));
                out.push(46);
                append(&mut out, &number_text(a[1] as u32));
                out.push(46);
                append(&mut out, &number_text(a[2] as u32));
                out.push(46);
                append(&mut out, &number_text(a[3] as u32));
                assert(out@ =~= rdata_text(rdata_view(*self)));
            },
            MasterRecordData::Ns(n) | MasterRecordData::Cname(n) | MasterRecordData::Ptr(n) => {
                append(&mut out, &n.to_text());
                assert(out@ =~= rdata_text(rdata_view(*self)));
            },
            MasterRecordData::Mx(pref, n) => {
                append(&mut out, &number_text(*pref as u32));
                out.push(32);
                append(&mut out, &n.to_text());
                assert(out@ =~= rdata_text(rdata_view(*self)));
            },
            MasterRecordData::Soa(soa) => {
                append(&mut out, &soa.mname.to_text());
                out.push(32);
                append(&mut out, &soa.rname.to_text());
                out.push(32);
                append(&mut out, &number_text(soa.serial));
                out.push(32);
                append(&mut out, &number_text(soa.refresh));
                out.push(32);
                append(&mut out, &number_text(soa.retry));
                out.push(32);
                append(&mut out, &number_text(soa.expire));
                out.push(32);
                append(&mut out, &number_text(soa.minimum));
                assert(out@ =~= rdata_text(rdata_view(*self)));
            },
            MasterRecordData::Txt(strings) => {
                let ghost ss = strings@.map_values(|b: Vec<u8>| b@);
                let mut k: usize = 0;
                proof {
                    assert(ss.subrange(0, 0) =~= Seq::<Seq<u8>>::empty());
                }
                while k < strings.len()
                    invariant
                        k <= strings@.len(),
                        ss == strings@.map_values(|b: Vec<u8>| b@),
                        out@ == txt_text(ss.subrange(0, k as int)),
                    decreases strings@.len() - k,
                {
                    let ghost before = out@;
                    if k > 0 {
                        out.push(32);
                    }
                    out.push(34);
                    let st = &strings[k];
                    let ghost head = out@;
                    let mut i: usize = 0;
                    proof {
                        assert(st@.subrange(0, 0) =~= Seq::<u8>::empty());
                        assert(head =~= head + qtext(st@.subrange(0, 0)));
                    }
                    while i < st.len()
                        invariant
                            i <= st@.len(),
                            out@ == head + qtext(st@.subrange(0, i as int)),
                        decreases st@.len() - i,
                    {
                        let b = st[i];
                        let ghost o = out@;
                        if b == 34 || b == 92 || b < 32 || b > 126 {
                            push_escaped(&mut out, b);
                        } else {
                            out.push(b);
                        }
                        proof {
                            assert(st@.subrange(0, i as int + 1).drop_last() =~= st@.subrange(0, i as int));
                            assert(out@ =~= head + qtext(st@.subrange(0, i as int + 1)));
                        }
                        i += 1;
                    }
                    out.push(34);
                    proof {
                        assert(st@.subrange(0, st@.len() as int) =~= st@);
                        assert(ss[k as int] == st@);
                        let pre = ss.subrange(0, k as int + 1);
                        assert(pre.drop_last() =~= ss.subrange(0, k as int));
                        if k == 0 {
                            assert(out@ =~= txt_text(pre));
                        } else {
                            assert(out@ =~= txt_text(pre));
                        }
                    }
                    k += 1;
                }
                proof {
                    assert(ss.subrange(0, strings@.len() as int) =~= ss);
                }
            },
        }
        out
    }
}

impl MasterRecord {
    /// The record as one line of a master file: owner, TTL, class, type
    /// and data, separated by blanks and ended by a line feed.
    pub fn to_text(&self) -> (r: Vec<u8>)
        ensures
            r@ == record_text(record_view(*self), self.rdata.rtype_spec()),
    {
        let mut out = self.owner.to_text();
        out.push(32);
        append(&mut out, &number_text(self.ttl));
        out.push(32);
        append(&mut out, &self.class.to_text());
        out.push(32);
        append(&mut out, &self.rdata.rtype().to_text());
        out.push(32);
        append(&mut out, &self.rdata.to_text());
        out.push(10);
        assert(out@ =~= record_text(record_view(*self), self.rdata.rtype_spec()));
        out
    }
}

impl ReaderItem {
    /// The item in master file form: a record line, or an `$INCLUDE` line
    /// with the path escaped and the origin, if any.
    pub fn to_text(&self) -> (r: Vec<u8>)
        ensures
            *self matches ReaderItem::Record(rec) ==> r@ == record_text(record_view(rec), rec.rdata.rtype_spec()),
            *self matches ReaderItem::Include { path, origin } ==> r@ == seq![36u8, 73u8, 78u8, 67u8, 76u8, 85u8, 68u8, 69u8, 32u8]
                + esc_label(path@) + (match origin { Some(o) => seq![32u8] + dname_text(o@), None => Seq::empty() })
                + seq![10u8],
    {
        match self {
            ReaderItem::Record(record) => record.to_text(),
            ReaderItem::Include { path, origin } => {
                let mut out = vec![36u8, 73u8, 78u8, 67u8, 76u8, 85u8, 68u8, 69u8, 32u8];
                let ghost head = out@;
                let mut i: usize = 0;
                proof {
                    assert(path@.subrange(0, 0) =~= Seq::<u8>::empty());
                    assert(head =~= head + esc_label(path@.subrange(0, 0)));
                }
                while i < path.len()
                    invariant
                        i <= path@.len(),
                        out@ == head + esc_label(path@.subrange(0, i as int)),
                    decreases path@.len() - i,
                {
                    proof {
                        lemma_esc_label_push(path@.subrange(0, i as int), path@[i as int]);
                        assert(path@.subrange(0, i as int).push(path@[i as int]) =~= path@.subrange(0, i as int + 1));
                    }
                    push_escaped(&mut out, path[i]);
                    proof {
                        assert(out@ =~= head + esc_label(path@.subrange(0, i as int + 1)));
                    }
                    i += 1;
                }
                proof {
                    assert(path@.subrange(0, path@.len() as int) =~= path@);
                }
                let ghost mid = out@;
                match origin {
                    Some(o) => {
                        out.push(32);
                        append(&mut out, &o.to_text());
                    },
                    None => {},
                }
                out.push(10);
                assert(head =~= seq![36u8, 73u8, 78u8, 67u8, 76u8, 85u8, 68u8, 69u8, 32u8]);
                assert(out@ =~= head + esc_label(path@) + (match origin { Some(o) => seq![32u8] + dname_text(o@), None => Seq::<u8>::empty() })
                    + seq![10u8]);
                out
            },
        }
    }
}

} // verus!

verus! {

/// A word that the tokeniser reads whole: none of its bytes ends a word,
/// and it does not end in a backslash.
pub open spec fn whole_word(w: Seq<u8>) -> bool {
    &&& forall|k: int| 0 <= k < w.len() ==> !ends_word(#[trigger] w[k])
    &&& w.len() > 0 ==> w.last() != 92
}

/// Words joined by single blanks.
pub open spec fn join(ws: Seq<Seq<u8>>) -> Seq<u8>
    decreases ws.len(),
{
    if ws.len() <= 1 {
        if ws.len() == 1 { ws[0] } else { Seq::empty() }
    } else {
        ws[0] + seq![32u8] + join(ws.subrange(1, ws.len() as int))
    }
}

proof fn lemma_lex_plain(s: Seq<u8>, i: int, acc: Seq<u8>, g: bool, ws: Seq<(Seq<u8>, bool)>, w: Seq<u8>)
    requires
        whole_word(w),
        0 <= i,
        i + w.len() < s.len(),
        s.subrange(i, i + w.len()) == w,
    ensures
        lex(s, i, LexState::Plain(acc), g, ws) == lex(s, i + w.len(), LexState::Plain(acc + w), g, ws),
    decreases w.len(),
{
    if w.len() == 0 {
        assert(acc + w =~= acc);
    } else {
        assert(s[i] == w[0]) by { assert(s.subrange(i, i + w.len())[0] == s[i]); }
        assert(!ends_word(w[0]));
        if w[0] == 92 {
            assert(w.len() >= 2);
            assert(s[i + 1] == w[1]) by { assert(s.subrange(i, i + w.len())[1] == s[i + 1]); }
            let rest = w.subrange(2, w.len() as int);
            assert(s.subrange(i + 2, i + 2 + rest.len()) =~= rest);
            lemma_lex_plain(s, i + 2, acc.push(w[0]).push(w[1]), g, ws, rest);
            assert(acc.push(w[0]).push(w[1]) + rest =~= acc + w);
        } else {
            let rest = w.subrange(1, w.len() as int);
            assert(s.subrange(i + 1, i + 1 + rest.len()) =~= rest);
            lemma_lex_plain(s, i + 1, acc.push(w[0]), g, ws, rest);
            assert(acc.push(w[0]) + rest =~= acc + w);
        }
    }
}

/// Tokenising words joined by blanks and ended by a line feed gives the
/// words back.
proof fn lemma_lex_line(s: Seq<u8>, i: int, ws: Seq<(Seq<u8>, bool)>, words: Seq<Seq<u8>>)
    requires
        words.len() >= 1,
        forall|k: int| 0 <= k < words.len() ==> whole_word(#[trigger] words[k]) && words[k].len() > 0,
        0 <= i,
        i + join(words).len() + 1 <= s.len(),
        s.subrange(i, i + join(words).len() + 1) == join(words) + seq![10u8],
    ensures
        lex(s, i, LexState::Between, false, ws)
            == Ok::<(Seq<(Seq<u8>, bool)>, int), crate::scan::SyntaxError>((ws + words.map_values(|w: Seq<u8>| (w, false)),
                i + join(words).len() + 1)),
    decreases words.len(),
{
    let w = words[0];
    let rest = words.subrange(1, words.len() as int);
    let n = w.len() as int;
    let len = join(words).len() + 1;
    assert(whole_word(w));
    assert(join(words) + seq![10u8] == w + (if words.len() == 1 { seq![10u8] } else { seq![32u8] + join(rest) + seq![10u8] })) by {
        if words.len() == 1 {
            assert(join(words) == w);
        } else {
            assert(join(words) == w + seq![32u8] + join(rest));
            assert(w + seq![32u8] + join(rest) + seq![10u8] =~= w + (seq![32u8] + join(rest) + seq![10u8]));
        }
    }
    let tail = s.subrange(i, i + len);
    assert(tail == w + (if words.len() == 1 { seq![10u8] } else { seq![32u8] + join(rest) + seq![10u8] }));
    assert(tail.len() >= n + 1);
    assert forall|k: int| 0 <= k < tail.len() implies #[trigger] tail[k] == s[i + k] by {}
    assert forall|k: int| 0 <= k < n implies #[trigger] tail[k] == w[k] by {}
    assert(s.subrange(i, i + n) =~= w) by {
        assert forall|k: int| 0 <= k < n implies s.subrange(i, i + n)[k] == w[k] by {
            assert(tail[k] == s[i + k]);
        }
    }
    assert(s[i + n] == (if words.len() == 1 { 10u8 } else { 32u8 })) by {
        assert(tail[n] == s[i + n]);
    }
    let c = w[0];
    assert(s[i] == c) by { assert(s.subrange(i, i + n)[0] == s[i]); }
    assert(!ends_word(c));
    if c == 92 {
        assert(n >= 2);
        assert(s[i + 1] == w[1]) by { assert(s.subrange(i, i + n)[1] == s[i + 1]); }
        let w2 = w.subrange(2, n);
        assert(s.subrange(i + 2, i + 2 + w2.len()) =~= w2);
        assert(whole_word(w2));
        lemma_lex_plain(s, i + 2, seq![c, w[1]], false, ws, w2);
        assert(seq![c, w[1]] + w2 =~= w);
    } else {
        let w1 = w.subrange(1, n);
        assert(s.subrange(i + 1, i + 1 + w1.len()) =~= w1);
        assert(whole_word(w1));
        lemma_lex_plain(s, i + 1, seq![c], false, ws, w1);
        assert(seq![c] + w1 =~= w);
    }
    let ws2 = ws.push((w, false));
    assert(lex(s, i, LexState::Between, false, ws) == lex(s, i + n, LexState::Between, false, ws2));
    if words.len() == 1 {
        assert(len == n + 1);
        assert(ws2 =~= ws + words.map_values(|w: Seq<u8>| (w, false)));
    } else {
        let len2 = join(rest).len() + 1;
        assert(len == n + 1 + len2);
        assert(s.subrange(i + n + 1, i + n + 1 + len2) =~= join(rest) + seq![10u8]) by {
            assert forall|k: int| 0 <= k < len2 implies s.subrange(i + n + 1, i + n + 1 + len2)[k] == (join(rest) + seq![10u8])[k] by {
                assert(tail[n + 1 + k] == s[i + n + 1 + k]);
            }
        }
        lemma_lex_line(s, i + n + 1, ws2, rest);
        assert(ws2 + rest.map_values(|w: Seq<u8>| (w, false)) =~= ws + words.map_values(|w: Seq<u8>| (w, false)));
    }
}

proof fn lemma_decimal(n: nat)
    requires
        n <= u32::MAX,
    ensures
        number_of(decimal(n)) == Some(n as u32),
        whole_word(decimal(n)),
        decimal(n).len() > 0,
{
    lemma_decimal_digits(n);
    lemma_decimal_number(n);
    let d = decimal(n);
    assert forall|k: int| 0 <= k < d.len() implies !ends_word(#[trigger] d[k]) by {
        assert(is_digit(d[k]));
    }
    assert(is_digit(d.last()));
}

proof fn lemma_decimal_digits(n: nat)
    ensures
        forall|k: int| 0 <= k < decimal(n).len() ==> is_digit(#[trigger] decimal(n)[k]),
    decreases n,
{
    if n >= 10 {
        lemma_decimal_digits(n / 10);
        let d = decimal(n);
        assert forall|k: int| 0 <= k < d.len() implies is_digit(#[trigger] d[k]) by {
            if k < d.len() - 1 {
                assert(d[k] == decimal(n / 10)[k]);
            }
        }
    }
}

proof fn lemma_decimal_number(n: nat)
    requires
        n <= u32::MAX,
    ensures
        number_of(decimal(n)) == Some(n as u32),
    decreases n,
{
    lemma_decimal_digits(n);
    if n < 10 {
        let d = decimal(n);
        assert(d.drop_last() =~= Seq::<u8>::empty());
        assert(digits_value(Seq::<u8>::empty()) == 0);
        assert(digits_value(d) == n);
    } else {
        lemma_decimal_number(n / 10);
        let d = decimal(n);
        assert(d.drop_last() =~= decimal(n / 10));
        assert(digits_value(d) == (n / 10) * 10 + n % 10);
        assert((n / 10) * 10 + n % 10 == n) by (nonlinear_arith);
    }
}

proof fn lemma_esc_label_word(l: Seq<u8>)
    ensures
        forall|k: int| 0 <= k < esc_label(l).len() ==> !ends_word(#[trigger] esc_label(l)[k]) && esc_label(l)[k] != 36,
        l.len() > 0 ==> esc_label(l).len() > 0 && esc_label(l).last() != 92,
    decreases l.len(),
{
    if l.len() > 0 {
        let rest = l.subrange(1, l.len() as int);
        lemma_esc_label_word(rest);
        let e = esc_byte(l[0]);
        let b = l[0];
        if !plain_byte(b) {
            assert(b / 100 <= 2);
        }
        assert forall|k: int| 0 <= k < e.len() implies !ends_word(#[trigger] e[k]) && e[k] != 36 by {}
        assert(e.last() != 92);
        assert(esc_label(l) == e + esc_label(rest));
        assert forall|k: int| 0 <= k < esc_label(l).len() implies !ends_word(#[trigger] esc_label(l)[k]) && esc_label(l)[k] != 36 by {
            if k < e.len() {
                assert(esc_label(l)[k] == e[k]);
            } else {
                assert(esc_label(l)[k] == esc_label(rest)[k - e.len()]);
            }
        }
        if rest.len() > 0 {
            assert(esc_label(l).last() == esc_label(rest).last());
        } else {
            assert(esc_label(rest).len() == 0);
            assert(esc_label(l).last() == e.last());
        }
    }
}

proof fn lemma_name_text_word(ls: Seq<Seq<u8>>)
    ensures
        forall|k: int| 0 <= k < name_text(ls).len() ==> !ends_word(#[trigger] name_text(ls)[k]) && name_text(ls)[k] != 36,
        ls.len() > 0 ==> name_text(ls).len() > 0 && name_text(ls).last() == 46,
    decreases ls.len(),
{
    if ls.len() > 0 {
        let rest = ls.subrange(1, ls.len() as int);
        lemma_name_text_word(rest);
        lemma_esc_label_word(ls[0]);
        let head = esc_label(ls[0]) + seq![46u8];
        assert(name_text(ls) == head + name_text(rest));
        assert forall|k: int| 0 <= k < name_text(ls).len() implies !ends_word(#[trigger] name_text(ls)[k]) && name_text(ls)[k] != 36 by {
            if k < esc_label(ls[0]).len() {
                assert(name_text(ls)[k] == esc_label(ls[0])[k]);
            } else if k == esc_label(ls[0]).len() {
                assert(name_text(ls)[k] == 46);
            } else {
                assert(name_text(ls)[k] == name_text(rest)[k - head.len()]);
            }
        }
        if rest.len() > 0 {
            assert(name_text(ls).last() == name_text(rest).last());
        } else {
            assert(name_text(rest).len() == 0);
        }
    }
}

/// The text of a name is one word that does not begin with `$`, and it
/// reads back as the name.
proof fn lemma_dname_word(ls: Seq<Seq<u8>>, origin: Option<Seq<Seq<u8>>>)
    requires
        valid_name(ls),
    ensures
        whole_word(dname_text(ls)),
        dname_text(ls).len() > 0,
        dname_text(ls)[0] != 36,
        name_of(dname_text(ls), origin) == Ok::<Seq<Seq<u8>>, crate::scan::SyntaxError>(ls),
{
    lemma_name_text_round_trip(ls, origin);
    if ls.len() > 0 {
        lemma_name_text_word(ls);
    }
}

/// The record type that record data has.
pub open spec fn rdata_type(d: RdataView) -> Rtype {
    match d {
        RdataView::A(_) => Rtype::A,
        RdataView::Ns(_) => Rtype::Ns,
        RdataView::Cname(_) => Rtype::Cname,
        RdataView::Ptr(_) => Rtype::Ptr,
        RdataView::Mx(_, _) => Rtype::Mx,
        RdataView::Soa(..) => Rtype::Soa,
        RdataView::Txt(_) => Rtype::Txt,
    }
}

/// The three digits of an escaped byte give the byte back.
proof fn lemma_escape_digits(b: u8)
    ensures
        (b / 100) * 100 + ((b / 10) % 10) * 10 + b % 10 == b,
        b / 100 <= 2,
{
    assert((b / 100) * 100 + ((b / 10) % 10) * 10 + b % 10 == b) by (nonlinear_arith);
}

proof fn lemma_esc_label_len(l: Seq<u8>)
    ensures
        esc_label(l).len() >= l.len(),
    decreases l.len(),
{
    if l.len() > 0 {
        lemma_esc_label_len(l.subrange(1, l.len() as int));
    }
}

/// Reading the text of label `l` at position `i` adds `l` to the label
/// being read.
proof fn lemma_split_label(s: Seq<u8>, i: int, cur: Seq<u8>, labels: Seq<Seq<u8>>, l: Seq<u8>)
    requires
        0 <= i,
        i + esc_label(l).len() <= s.len(),
        s.subrange(i, i + esc_label(l).len()) == esc_label(l),
    ensures
        split_name(s, i, cur, labels) == split_name(s, i + esc_label(l).len(), cur + l, labels),
    decreases l.len(),
{
    if l.len() == 0 {
        assert(cur + l =~= cur);
    } else {
        let b = l[0];
        let e = esc_byte(b);
        let rest = l.subrange(1, l.len() as int);
        assert(esc_label(l) == e + esc_label(rest));
        assert(s.subrange(i, i + e.len()) =~= e) by {
            assert forall|k: int| 0 <= k < e.len() implies s.subrange(i, i + e.len())[k] == e[k] by {
                assert(s.subrange(i, i + esc_label(l).len())[k] == esc_label(l)[k]);
            }
        }
        assert(s.subrange(i + e.len(), i + e.len() + esc_label(rest).len()) =~= esc_label(rest)) by {
            assert forall|k: int| 0 <= k < esc_label(rest).len()
                implies s.subrange(i + e.len(), i + e.len() + esc_label(rest).len())[k] == esc_label(rest)[k] by {
                assert(s.subrange(i, i + esc_label(l).len())[e.len() + k] == esc_label(l)[e.len() + k]);
            }
        }
        assert(s.subrange(i, i + e.len())[0] == s[i]);
        if plain_byte(b) {
            assert(e[0] == b);
            assert(s[i] == b);
            assert(split_name(s, i, cur, labels) == split_name(s, i + 1, cur.push(b), labels));
        } else {
            lemma_escape_digits(b);
            assert(s[i] == 92);
            assert(s.subrange(i, i + e.len())[1] == s[i + 1]);
            assert(s.subrange(i, i + e.len())[2] == s[i + 2]);
            assert(s.subrange(i, i + e.len())[3] == s[i + 3]);
            assert(s[i + 1] == e[1] && s[i + 2] == e[2] && s[i + 3] == e[3]);
            assert(escape_spec(s, i) == Some((b, 4int)));
            assert(split_name(s, i, cur, labels) == split_name(s, i + 4, cur.push(b), labels));
        }
        lemma_split_label(s, i + e.len(), cur.push(b), labels, rest);
        assert(cur.push(b) + rest =~= cur + l);
    }
}

/// Reading the text of the labels `ls` at position `i`, at the end of `s`,
/// adds them to the labels read and makes an absolute name.
proof fn lemma_split_names(s: Seq<u8>, i: int, acc: Seq<Seq<u8>>, ls: Seq<Seq<u8>>)
    requires
        0 <= i <= s.len(),
        s.subrange(i, s.len() as int) == name_text(ls),
        forall|k: int| 0 <= k < ls.len() ==> (#[trigger] ls[k]).len() > 0,
        acc.len() > 0 || ls.len() > 0,
    ensures
        split_name(s, i, Seq::empty(), acc) == Ok::<(Seq<Seq<u8>>, bool), crate::scan::SyntaxError>((acc + ls, true)),
    decreases ls.len(),
{
    if ls.len() == 0 {
        assert(name_text(ls).len() == 0);
        assert(acc + ls =~= acc);
    } else {
        let l = ls[0];
        let tail = ls.subrange(1, ls.len() as int);
        let n = esc_label(l).len() as int;
        assert(name_text(ls) == esc_label(l) + seq![46u8] + name_text(tail));
        assert(s.subrange(i, i + n) =~= esc_label(l)) by {
            assert forall|k: int| 0 <= k < n implies s.subrange(i, i + n)[k] == esc_label(l)[k] by {
                assert(s.subrange(i, s.len() as int)[k] == name_text(ls)[k]);
            }
        }
        lemma_split_label(s, i, Seq::empty(), acc, l);
        assert(Seq::<u8>::empty() + l =~= l);
        assert(s[i + n] == 46) by {
            assert(s.subrange(i, s.len() as int)[n] == name_text(ls)[n]);
        }
        assert(s.subrange(i + n + 1, s.len() as int) =~= name_text(tail)) by {
            assert forall|k: int| 0 <= k < name_text(tail).len()
                implies s.subrange(i + n + 1, s.len() as int)[k] == name_text(tail)[k] by {
                assert(s.subrange(i, s.len() as int)[n + 1 + k] == name_text(ls)[n + 1 + k]);
            }
        }
        lemma_split_names(s, i + n + 1, acc.push(l), tail);
        assert(acc.push(l) + tail =~= acc + ls);
    }
}

/// Names read back: the text `to_text` writes for a valid name is read as
/// that name, whatever the origin.
pub proof fn lemma_name_text_round_trip(ls: Seq<Seq<u8>>, origin: Option<Seq<Seq<u8>>>)
    requires
        valid_name(ls),
    ensures
        name_of(dname_text(ls), origin) == Ok::<Seq<Seq<u8>>, crate::scan::SyntaxError>(ls),
{
    if ls.len() > 0 {
        let s = name_text(ls);
        lemma_esc_label_len(ls[0]);
        assert(s == esc_label(ls[0]) + seq![46u8] + name_text(ls.subrange(1, ls.len() as int)));
        assert(s.len() >= 2);
        assert(s != seq![64u8]);
        assert(s != seq![46u8]);
        assert(s.subrange(0, s.len() as int) =~= s);
        lemma_split_names(s, 0, Seq::empty(), ls);
        assert(Seq::<Seq<u8>>::empty() + ls =~= ls);
    } else {
        assert(ls =~= Seq::<Seq<u8>>::empty());
    }
}

proof fn lemma_join_cons(w: Seq<u8>, rest: Seq<Seq<u8>>)
    ensures
        join(seq![w] + rest) == (if rest.len() == 0 { w } else { w + seq![32u8] + join(rest) }),
{
    let ws = seq![w] + rest;
    assert(ws[0] == w);
    assert(ws.subrange(1, ws.len() as int) =~= rest);
}

proof fn lemma_class_word(c: Class)
    requires
        c is In || c is Ch || c is Hs,
    ensures
        whole_word(class_text(c)),
        class_text(c).len() > 0,
        number_of(class_text(c)) is None,
        class_of(class_text(c)) == Some(c),
{
    let t = class_text(c);
    assert(!is_digit(t[0]));
    match c {
        Class::In => { assert(fold(t) =~= seq![105u8, 110u8]); },
        Class::Ch => { assert(fold(t) =~= seq![99u8, 104u8]); assert(fold(t) != seq![105u8, 110u8]); },
        _ => {
            assert(fold(t) =~= seq![104u8, 115u8]);
            assert(fold(t) != seq![105u8, 110u8]);
            assert(fold(t) != seq![99u8, 104u8]);
        },
    }
}

proof fn lemma_type_word(t: Rtype)
    requires
        !(t is Int),
    ensures
        whole_word(type_text(t)),
        type_text(t).len() > 0,
        number_of(type_text(t)) is None,
        class_of(type_text(t)) is None,
        type_of(type_text(t)) == Some(t),
{
    let x = type_text(t);
    assert(!is_digit(x[0]));
    let f = fold(x);
    match t {
        Rtype::A => { assert(f =~= seq![97u8]); },
        Rtype::Ns => { assert(f =~= seq![110u8, 115u8]); assert(f != seq![97u8]); },
        Rtype::Cname => { assert(f =~= seq![99u8, 110u8, 97u8, 109u8, 101u8]); assert(f.len() == 5); },
        Rtype::Soa => { assert(f =~= seq![115u8, 111u8, 97u8]); assert(f[0] == 115u8); },
        Rtype::Ptr => { assert(f =~= seq![112u8, 116u8, 114u8]); assert(f[0] == 112u8); },
        Rtype::Mx => { assert(f =~= seq![109u8, 120u8]); assert(f[0] == 109u8); },
        _ => { assert(f =~= seq![116u8, 120u8, 116u8]); assert(f[0] == 116u8); },
    }
}

/// Records whose data is an address, names or numbers, of a class the
/// reader knows.
pub open spec fn writable(r: RecordView) -> bool {
    &&& valid_name(r.owner)
    &&& (r.class is In || r.class is Ch || r.class is Hs)
    &&& match r.rdata {
        RdataView::A(a) => a.len() == 4,
        RdataView::Ns(n) => valid_name(n),
        RdataView::Cname(n) => valid_name(n),
        RdataView::Ptr(n) => valid_name(n),
        RdataView::Mx(_, n) => valid_name(n),
        RdataView::Soa(m, x, _, _, _, _, _) => valid_name(m) && valid_name(x),
        _ => false,
    }
}

/// The words of record data.
pub open spec fn rdata_words(d: RdataView) -> Seq<Seq<u8>> {
    match d {
        RdataView::A(a) => seq![quad_text(a)],
        RdataView::Ns(n) => seq![dname_text(n)],
        RdataView::Cname(n) => seq![dname_text(n)],
        RdataView::Ptr(n) => seq![dname_text(n)],
        RdataView::Mx(p, n) => seq![decimal(p as nat), dname_text(n)],
        RdataView::Soa(m, x, a, b, c, d, e) => seq![dname_text(m), dname_text(x), decimal(a as nat),
            decimal(b as nat), decimal(c as nat), decimal(d as nat), decimal(e as nat)],
        _ => Seq::empty(),
    }
}

/// The words of name and number data are whole words that read back as
/// the data, and join to its text.
#[verifier::rlimit(100)]
#[verifier::spinoff_prover]
proof fn lemma_rdata_words(rd: RdataView, origin: Option<Seq<Seq<u8>>>)
    requires
        writable(RecordView { owner: Seq::empty(), class: Class::In, ttl: 0, rdata: rd }),
    ensures
        join(rdata_words(rd)) == rdata_text(rd),
        rdata_words(rd).len() >= 1,
        forall|k: int| 0 <= k < rdata_words(rd).len() ==> whole_word(#[trigger] rdata_words(rd)[k]) && rdata_words(rd)[k].len() > 0,
{
    let rw = rdata_words(rd);
    let st_origin = origin;
    match rd {
        RdataView::A(a) => {
            lemma_quad(a);
            lemma_join_cons(quad_text(a), Seq::empty());
            assert(rw =~= seq![quad_text(a)] + Seq::empty());
        },
        RdataView::Ns(n) => { lemma_dname_word(n, st_origin); lemma_join_cons(dname_text(n), Seq::empty()); assert(rw =~= seq![dname_text(n)] + Seq::empty()); },
        RdataView::Cname(n) => { lemma_dname_word(n, st_origin); lemma_join_cons(dname_text(n), Seq::empty()); assert(rw =~= seq![dname_text(n)] + Seq::empty()); },
        RdataView::Ptr(n) => { lemma_dname_word(n, st_origin); lemma_join_cons(dname_text(n), Seq::empty()); assert(rw =~= seq![dname_text(n)] + Seq::empty()); },
        RdataView::Mx(p, n) => {
            lemma_dname_word(n, st_origin);
            lemma_decimal(p as nat);
            lemma_join_cons(dname_text(n), Seq::empty());
            lemma_join_cons(decimal(p as nat), seq![dname_text(n)]);
            assert(seq![dname_text(n)] =~= seq![dname_text(n)] + Seq::<Seq<u8>>::empty());
            assert(rw =~= seq![decimal(p as nat)] + seq![dname_text(n)]);
        },
        RdataView::Soa(m, x, a, b, c, d, e) => {
            lemma_dname_word(m, st_origin);
            lemma_dname_word(x, st_origin);
            lemma_decimal(a as nat);
            lemma_decimal(b as nat);
            lemma_decimal(c as nat);
            lemma_decimal(d as nat);
            lemma_decimal(e as nat);
            let s6 = seq![decimal(e as nat)];
            let s5 = seq![decimal(d as nat)] + s6;
            let s4 = seq![decimal(c as nat)] + s5;
            let s3 = seq![decimal(b as nat)] + s4;
            let s2 = seq![decimal(a as nat)] + s3;
            let s1 = seq![dname_text(x)] + s2;
            let s0 = seq![dname_text(m)] + s1;
            lemma_join_cons(decimal(e as nat), Seq::empty());
            assert(s6 =~= seq![decimal(e as nat)] + Seq::<Seq<u8>>::empty());
            lemma_join_cons(decimal(d as nat), s6);
            lemma_join_cons(decimal(c as nat), s5);
            lemma_join_cons(decimal(b as nat), s4);
            lemma_join_cons(decimal(a as nat), s3);
            lemma_join_cons(dname_text(x), s2);
            lemma_join_cons(dname_text(m), s1);
            assert(rw =~= s0);
        },
        _ => {},
    }
    assert(join(rw) =~= rdata_text(rd));
}

/// Name and number data read back from its words.
#[verifier::rlimit(100)]
#[verifier::spinoff_prover]
proof fn lemma_rdata_read(rd: RdataView, origin: Option<Seq<Seq<u8>>>, ws: Seq<Seq<u8>>, j: int)
    requires
        writable(RecordView { owner: Seq::empty(), class: Class::In, ttl: 0, rdata: rd }),
        0 <= j <= ws.len(),
        ws.subrange(j, ws.len() as int) == rdata_words(rd),
    ensures
        rdata_spec(rdata_type(rd), ws, j, origin) == Some(rd),
{
    let rw = rdata_words(rd);
    assert forall|k: int| 0 <= k < rw.len() implies #[trigger] ws[j + k] == rw[k] by {
        assert(ws.subrange(j, ws.len() as int)[k] == ws[j + k]);
    }
    assert(ws.len() == j + rw.len());
    match rd {
        RdataView::A(a) => {
            assert(ws[j] == rw[0]);
            lemma_quad(a);
            lemma_octet(a[0]);
            lemma_octet(a[1]);
            lemma_octet(a[2]);
            lemma_octet(a[3]);
            let p = dot_parts(ws[j]);
            assert(seq![octet_of(p[0])->Some_0, octet_of(p[1])->Some_0, octet_of(p[2])->Some_0, octet_of(p[3])->Some_0] =~= a);
        },
        RdataView::Ns(n) => { assert(ws[j] == rw[0]); lemma_read_name(Rtype::Ns, n, origin, ws, j); },
        RdataView::Cname(n) => { assert(ws[j] == rw[0]); lemma_read_name(Rtype::Cname, n, origin, ws, j); },
        RdataView::Ptr(n) => { assert(ws[j] == rw[0]); lemma_read_name(Rtype::Ptr, n, origin, ws, j); },
        RdataView::Mx(p, n) => {
            assert(ws[j] == rw[0]);
            assert(ws[j + 1] == rw[1]);
            lemma_read_mx(p, n, origin, ws, j);
        },
        RdataView::Soa(m, x, a, b, c, d, e) => {
            assert(ws[j] == rw[0]);
            assert(ws[j + 1] == rw[1]);
            assert(ws[j + 2] == rw[2]);
            assert(ws[j + 3] == rw[3]);
            assert(ws[j + 4] == rw[4]);
            assert(ws[j + 5] == rw[5]);
            assert(ws[j + 6] == rw[6]);
            lemma_read_soa(m, x, a, b, c, d, e, origin, ws, j);
        },
        _ => {},
    }
}

proof fn lemma_read_name(t: Rtype, n: Seq<Seq<u8>>, origin: Option<Seq<Seq<u8>>>, ws: Seq<Seq<u8>>, j: int)
    requires
        t is Ns || t is Cname || t is Ptr,
        valid_name(n),
        0 <= j,
        ws.len() == j + 1,
        ws[j] == dname_text(n),
    ensures
        rdata_spec(t, ws, j, origin) == Some(match t {
            Rtype::Ns => RdataView::Ns(n),
            Rtype::Cname => RdataView::Cname(n),
            _ => RdataView::Ptr(n),
        }),
{
    lemma_name_text_round_trip(n, origin);
}

proof fn lemma_read_mx(p: u16, n: Seq<Seq<u8>>, origin: Option<Seq<Seq<u8>>>, ws: Seq<Seq<u8>>, j: int)
    requires
        valid_name(n),
        0 <= j,
        ws.len() == j + 2,
        ws[j] == decimal(p as nat),
        ws[j + 1] == dname_text(n),
    ensures
        rdata_spec(Rtype::Mx, ws, j, origin) == Some(RdataView::Mx(p, n)),
{
    lemma_name_text_round_trip(n, origin);
    lemma_decimal_number(p as nat);
}

proof fn lemma_read_soa(m: Seq<Seq<u8>>, x: Seq<Seq<u8>>, a: u32, b: u32, c: u32, d: u32, e: u32,
    origin: Option<Seq<Seq<u8>>>, ws: Seq<Seq<u8>>, j: int)
    requires
        valid_name(m),
        valid_name(x),
        0 <= j,
        ws.len() == j + 7,
        ws[j] == dname_text(m),
        ws[j + 1] == dname_text(x),
        ws[j + 2] == decimal(a as nat),
        ws[j + 3] == decimal(b as nat),
        ws[j + 4] == decimal(c as nat),
        ws[j + 5] == decimal(d as nat),
        ws[j + 6] == decimal(e as nat),
    ensures
        rdata_spec(Rtype::Soa, ws, j, origin) == Some(RdataView::Soa(m, x, a, b, c, d, e)),
{
    lemma_name_text_round_trip(m, origin);
    lemma_name_text_round_trip(x, origin);
    lemma_decimal_number(a as nat);
    lemma_decimal_number(b as nat);
    lemma_decimal_number(c as nat);
    lemma_decimal_number(d as nat);
    lemma_decimal_number(e as nat);
    assert(forall|k: int| j + 2 <= k < j + 7 ==> #[trigger] number_of(ws[k]) is Some);
}

/// Written records read back: reading the line `MasterRecord::to_text`
/// writes for a record of a known class whose data is an address, names
/// or numbers (every type but TXT) gives that record, whatever the
/// reader's state.
#[verifier::rlimit(100)]
#[verifier::spinoff_prover]
proof fn lemma_record_line(r: RecordView, text: Seq<u8>, i: int, st: ReaderState)
    requires
        writable(r),
        0 <= i,
        i + record_text(r, rdata_type(r.rdata)).len() <= text.len(),
        text.subrange(i, i + record_text(r, rdata_type(r.rdata)).len()) == record_text(r, rdata_type(r.rdata)),
    ensures
        read_next(text, i, st).0 == Ok::<Option<ItemView>, ()>(Some(ItemView::Record(r))),
        read_next(text, i, st).1 == i + record_text(r, rdata_type(r.rdata)).len(),
{
    let t = rdata_type(r.rdata);
    let o = dname_text(r.owner);
    lemma_dname_word(r.owner, st.origin);
    lemma_decimal(r.ttl as nat);
    lemma_class_word(r.class);
    lemma_type_word(t);
    let rw = rdata_words(r.rdata);
    lemma_rdata_words(r.rdata, st.origin);
    let w3 = seq![type_text(t)] + rw;
    let w2 = seq![class_text(r.class)] + w3;
    let w1 = seq![decimal(r.ttl as nat)] + w2;
    let words = seq![o] + w1;
    lemma_join_cons(type_text(t), rw);
    lemma_join_cons(class_text(r.class), w3);
    lemma_join_cons(decimal(r.ttl as nat), w2);
    lemma_join_cons(o, w1);
    let s = record_text(r, t);
    assert(s =~= join(words) + seq![10u8]);
    assert forall|k: int| 0 <= k < words.len() implies whole_word(#[trigger] words[k]) && words[k].len() > 0 by {
        if k >= 4 {
            assert(words[k] == rw[k - 4]);
        }
    }
    lemma_lex_line(text, i, Seq::empty(), words);
    let wv = words.map_values(|w: Seq<u8>| (w, false));
    assert(Seq::<(Seq<u8>, bool)>::empty() + wv =~= wv);
    assert(wv.map_values(|p: (Seq<u8>, bool)| p.0) =~= words);
    assert(text[i] == o[0]) by {
        assert(text.subrange(i, i + s.len())[0] == text[i]);
        assert(s[0] == o[0]);
    }
    assert(header(words, 1) == (Some(r.ttl), Some(r.class), 3int));
    assert(words.subrange(4, words.len() as int) =~= rw);
    lemma_rdata_read(r.rdata, st.origin, words, 4);
    assert(entry_spec(wv, false, last_owner_of(st), last_class_of(st), st.origin, st.ttl)
        == Some(EntryView::Record(r)));
}

/// Written records read back: reading the line `MasterRecord::to_text`
/// writes for a record of a known class whose data is an address, names
/// or numbers (every type but TXT) gives that record, whatever the
/// reader's state.
pub proof fn lemma_record_round_trip(r: RecordView, st: ReaderState)
    requires
        writable(r),
    ensures
        read_next(record_text(r, rdata_type(r.rdata)), 0, st).0
            == Ok::<Option<ItemView>, ()>(Some(ItemView::Record(r))),
{
    let s = record_text(r, rdata_type(r.rdata));
    assert(s.subrange(0, s.len() as int) =~= s);
    lemma_record_line(r, s, 0, st);
}

/// The lines of a sequence of records, one after the other.
pub open spec fn stream_text(rs: Seq<RecordView>) -> Seq<u8>
    decreases rs.len(),
{
    if rs.len() == 0 {
        Seq::empty()
    } else {
        stream_text(rs.drop_last()) + record_text(rs.last(), rdata_type(rs.last().rdata))
    }
}

proof fn lemma_stream_prefix(rs: Seq<RecordView>, j: int)
    requires
        0 <= j <= rs.len(),
    ensures
        stream_text(rs.subrange(0, j)).len() <= stream_text(rs).len(),
        stream_text(rs).subrange(0, stream_text(rs.subrange(0, j)).len() as int) == stream_text(rs.subrange(0, j)),
    decreases rs.len() - j,
{
    if j == rs.len() {
        assert(rs.subrange(0, j) =~= rs);
        assert(stream_text(rs).subrange(0, stream_text(rs).len() as int) =~= stream_text(rs));
    } else {
        lemma_stream_prefix(rs, j + 1);
        let a = stream_text(rs.subrange(0, j));
        let b = stream_text(rs.subrange(0, j + 1));
        assert(rs.subrange(0, j + 1).drop_last() =~= rs.subrange(0, j));
        assert(b == a + record_text(rs[j], rdata_type(rs[j].rdata)));
        assert(stream_text(rs).subrange(0, a.len() as int) =~= b.subrange(0, a.len() as int));
        assert(b.subrange(0, a.len() as int) =~= a);
    }
}

/// Written streams read back: reading the lines written for records of a
/// known class whose data is an address, names or numbers gives, from the
/// start of each line, that line's record and the start of the next line;
/// at the end of the text, nothing more. This holds whatever the reader's
/// state.
pub proof fn lemma_stream_round_trip(rs: Seq<RecordView>, k: int, st: ReaderState)
    requires
        forall|m: int| 0 <= m < rs.len() ==> writable(#[trigger] rs[m]),
        0 <= k < rs.len(),
    ensures
        read_next(stream_text(rs), stream_text(rs.subrange(0, k)).len() as int, st).0
            == Ok::<Option<ItemView>, ()>(Some(ItemView::Record(rs[k]))),
        read_next(stream_text(rs), stream_text(rs.subrange(0, k)).len() as int, st).1
            == stream_text(rs.subrange(0, k + 1)).len(),
        read_next(stream_text(rs), stream_text(rs).len() as int, st).0 == Ok::<Option<ItemView>, ()>(None),
{
    let text = stream_text(rs);
    let a = stream_text(rs.subrange(0, k));
    let line = record_text(rs[k], rdata_type(rs[k].rdata));
    lemma_stream_prefix(rs, k + 1);
    let b = stream_text(rs.subrange(0, k + 1));
    assert(rs.subrange(0, k + 1).drop_last() =~= rs.subrange(0, k));
    assert(b == a + line);
    assert(text.subrange(a.len() as int, (a.len() + line.len()) as int) =~= line) by {
        assert forall|x: int| 0 <= x < line.len() implies text.subrange(a.len() as int, (a.len() + line.len()) as int)[x] == line[x] by {
            assert(text.subrange(0, b.len() as int)[a.len() + x] == b[a.len() + x]);
        }
    }
    lemma_record_line(rs[k], text, a.len() as int, st);
}


/// The text of an address: its octets in decimal, joined by dots.
pub open spec fn quad_text(a: Seq<u8>) -> Seq<u8> {
    decimal(a[0] as nat) + seq![46u8] + decimal(a[1] as nat) + seq![46u8] + decimal(a[2] as nat) + seq![46u8]
        + decimal(a[3] as nat)
}

proof fn lemma_dot_parts_plain(x: Seq<u8>, y: Seq<u8>)
    requires
        forall|k: int| 0 <= k < y.len() ==> #[trigger] y[k] != 46,
    ensures
        dot_parts(x + y) == dot_parts(x).update(dot_parts(x).len() - 1, dot_parts(x).last() + y),
        dot_parts(x).len() >= 1,
    decreases y.len(),
{
    lemma_dot_parts_len(x);
    if y.len() == 0 {
        assert(x + y =~= x);
        assert(dot_parts(x).last() + y =~= dot_parts(x).last());
        assert(dot_parts(x).update(dot_parts(x).len() - 1, dot_parts(x).last()) =~= dot_parts(x));
    } else {
        lemma_dot_parts_plain(x, y.drop_last());
        let dd = dot_parts(x);
        let r = dot_parts(x + y.drop_last());
        assert(r.len() == dd.len());
        assert(r.last() == dd.last() + y.drop_last());
        assert(y.last() != 46) by { assert(y[y.len() - 1] != 46); }
        assert((x + y).drop_last() =~= x + y.drop_last());
        assert((x + y).last() == y.last());
        assert(dot_parts(x + y) == r.update(r.len() - 1, r.last().push(y.last())));
        assert((dd.last() + y.drop_last()).push(y.last()) =~= dd.last() + y);
        assert(r.update(r.len() - 1, r.last().push(y.last())) =~= dd.update(dd.len() - 1, dd.last() + y));
        assert(dot_parts(x).last() + y.drop_last() + seq![y.last()] =~= dot_parts(x).last() + y);
        assert(dot_parts(x + y) =~= dot_parts(x).update(dot_parts(x).len() - 1, dot_parts(x).last() + y));
    }
}

proof fn lemma_dot_parts_len(x: Seq<u8>)
    ensures
        dot_parts(x).len() >= 1,
    decreases x.len(),
{
    if x.len() > 0 {
        lemma_dot_parts_len(x.drop_last());
    }
}

proof fn lemma_dot_parts_dot(x: Seq<u8>)
    ensures
        dot_parts(x + seq![46u8]) == dot_parts(x).push(Seq::empty()),
{
    assert((x + seq![46u8]).drop_last() =~= x);
}

proof fn lemma_octet(b: u8)
    ensures
        octet_of(decimal(b as nat)) == Some(b),
        decimal(b as nat).len() <= 3,
        forall|k: int| 0 <= k < decimal(b as nat).len() ==> #[trigger] decimal(b as nat)[k] != 46,
{
    lemma_decimal_number(b as nat);
    lemma_decimal_digits(b as nat);
    let n = b as nat;
    if n < 10 {
        assert(decimal(n).len() == 1);
    } else if n < 100 {
        assert(n / 10 < 10);
        assert(decimal(n / 10).len() == 1);
        assert(decimal(n).len() == 2);
    } else {
        assert(n / 10 >= 10 && n / 10 < 100);
        assert((n / 10) / 10 < 10);
        assert(decimal((n / 10) / 10).len() == 1);
        assert(decimal(n / 10).len() == 2);
        assert(decimal(n).len() == 3);
    }
    assert forall|k: int| 0 <= k < decimal(b as nat).len() implies #[trigger] decimal(b as nat)[k] != 46 by {
        assert(is_digit(decimal(b as nat)[k]));
    }
}

/// An address's text reads back as the address.
proof fn lemma_quad(a: Seq<u8>)
    requires
        a.len() == 4,
    ensures
        is_quad(quad_text(a)),
        dot_parts(quad_text(a)) == seq![decimal(a[0] as nat), decimal(a[1] as nat), decimal(a[2] as nat), decimal(a[3] as nat)],
        whole_word(quad_text(a)),
        quad_text(a).len() > 0,
{
    let d0 = decimal(a[0] as nat);
    let d1 = decimal(a[1] as nat);
    let d2 = decimal(a[2] as nat);
    let d3 = decimal(a[3] as nat);
    lemma_octet(a[0]);
    lemma_octet(a[1]);
    lemma_octet(a[2]);
    lemma_octet(a[3]);
    let e = Seq::<u8>::empty();
    assert(dot_parts(e) == seq![e]);
    lemma_dot_parts_plain(e, d0);
    assert(e + d0 =~= d0);
    assert(dot_parts(d0) =~= seq![d0]);
    lemma_dot_parts_dot(d0);
    lemma_dot_parts_plain(d0 + seq![46u8], d1);
    let p1 = d0 + seq![46u8] + d1;
    assert(dot_parts(p1) =~= seq![d0, d1]);
    lemma_dot_parts_dot(p1);
    lemma_dot_parts_plain(p1 + seq![46u8], d2);
    let p2 = p1 + seq![46u8] + d2;
    assert(dot_parts(p2) =~= seq![d0, d1, d2]);
    lemma_dot_parts_dot(p2);
    lemma_dot_parts_plain(p2 + seq![46u8], d3);
    let p3 = p2 + seq![46u8] + d3;
    assert(dot_parts(p3) =~= seq![d0, d1, d2, d3]);
    assert(p3 =~= quad_text(a));
    lemma_decimal(a[0] as nat);
    lemma_decimal(a[1] as nat);
    lemma_decimal(a[2] as nat);
    lemma_decimal(a[3] as nat);
    let q = quad_text(a);
    assert forall|k: int| 0 <= k < q.len() implies !ends_word(#[trigger] q[k]) by {
        if k < d0.len() { assert(q[k] == d0[k]); }
        else if k == d0.len() { assert(q[k] == 46); }
        else if k < d0.len() + 1 + d1.len() { assert(q[k] == d1[k - d0.len() - 1]); }
        else if k == d0.len() + 1 + d1.len() { assert(q[k] == 46); }
        else if k < d0.len() + 2 + d1.len() + d2.len() { assert(q[k] == d2[k - d0.len() - 2 - d1.len()]); }
        else if k == d0.len() + 2 + d1.len() + d2.len() { assert(q[k] == 46); }
        else { assert(q[k] == d3[k - d0.len() - 3 - d1.len() - d2.len()]); }
    }
    assert(q.last() == d3.last());
}

} // verus!
