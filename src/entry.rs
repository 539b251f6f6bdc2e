//! Parsing the words of one master file entry.

use vstd::prelude::*;
use crate::iana::Class;
use crate::iana::Rtype;
use crate::name::{DName, fold, fold_bytes, copy_bytes, valid_name};
use crate::rdata::{MasterRecord, MasterRecordData, Soa};
use crate::scan::{Line, SyntaxError, Word};

verus! {

pub open spec fn is_digit(c: u8) -> bool {
    48 <= c && c <= 57
}

/// The value of a string of decimal digits.
pub open spec fn digits_value(s: Seq<u8>) -> nat
    decreases s.len(),
{
    if s.len() == 0 {
        0
    } else {
        digits_value(s.drop_last()) * 10 + (s.last() - 48) as nat
    }
}

/// The number a word writes, if it is one that fits in 32 bits.
pub open spec fn number_of(s: Seq<u8>) -> Option<u32> {
    if s.len() > 0 && (forall|i: int| 0 <= i < s.len() ==> is_digit(#[trigger] s[i]))
        && digits_value(s) <= u32::MAX {
        Some(digits_value(s) as u32)
    } else {
        None
    }
}

/// The bytes that a word with escapes stands for: `\DDD` is the byte of
/// that decimal value, `\X` is `X`. `None` for a `\` at the end, or a
/// `\` before a digit that does not begin three digits up to 255.
pub open spec fn unescape(s: Seq<u8>) -> Option<Seq<u8>>
    decreases s.len(),
{
    if s.len() == 0 {
        Some(Seq::empty())
    } else if s[0] != 92 {
        match unescape(s.subrange(1, s.len() as int)) {
            Some(r) => Some(seq![s[0]] + r),
            None => None,
        }
    } else if s.len() >= 4 && is_digit(s[1]) && is_digit(s[2]) && is_digit(s[3]) {
        let v = (s[1] - 48) * 100 + (s[2] - 48) * 10 + (s[3] - 48);
        if v <= 255 {
            match unescape(s.subrange(4, s.len() as int)) {
                Some(r) => Some(seq![v as u8] + r),
                None => None,
            }
        } else {
            None
        }
    } else if s.len() >= 2 && !is_digit(s[1]) {
        match unescape(s.subrange(2, s.len() as int)) {
            Some(r) => Some(seq![s[1]] + r),
            None => None,
        }
    } else {
        None
    }
}

/// Reads the number a word writes.
pub fn parse_u32(w: &Vec<u8>) -> (r: Option<u32>)
    ensures
        r == number_of(w@),
{
    if w.len() == 0 {
        return None;
    }
    let mut v: u64 = 0;
    let mut i: usize = 0;
    while i < w.len()
        invariant
            i <= w@.len(),
            w@.len() > 0,
            v == digits_value(w@.subrange(0, i as int)),
            v <= u32::MAX,
            forall|k: int| 0 <= k < i ==> is_digit(#[trigger] w@[k]),
        decreases w@.len() - i,
    {
        let c = w[i];
        if c < 48 || c > 57 {
            assert(!is_digit(w@[i as int]));
            return None;
        }
        assert(w@.subrange(0, i as int + 1).drop_last() =~= w@.subrange(0, i as int));
        v = v * 10 + (c - 48) as u64;
        i += 1;
        if v > 4294967295 {
            proof { lemma_digits_grow(w@, i as int); }
            return None;
        }
    }
    assert(w@.subrange(0, w@.len() as int) =~= w@);
    Some(v as u32)
}

/// A longer prefix of digits is worth at least as much.
proof fn lemma_digits_grow(s: Seq<u8>, i: int)
    requires
        0 <= i <= s.len(),
    ensures
        forall|j: int| i <= j <= s.len() && (forall|k: int| 0 <= k < j ==> is_digit(#[trigger] s[k]))
            ==> digits_value(#[trigger] s.subrange(0, j)) >= digits_value(s.subrange(0, i)),
    decreases s.len() - i,
{
    if i < s.len() {
        lemma_digits_grow(s, i + 1);
        assert forall|j: int| i <= j <= s.len() && (forall|k: int| 0 <= k < j ==> is_digit(#[trigger] s[k]))
            implies digits_value(#[trigger] s.subrange(0, j)) >= digits_value(s.subrange(0, i)) by {
            if j > i {
                assert(s.subrange(0, i + 1).drop_last() =~= s.subrange(0, i));
            }
        }
    }
}

/// The bytes a word stands for, its escapes resolved.
pub fn unescape_word(w: &Vec<u8>) -> (r: Option<Vec<u8>>)
    ensures
        r is Some <==> unescape(w@) is Some,
        r matches Some(v) ==> v@ == unescape(w@)->Some_0,
{
    let mut out: Vec<u8> = Vec::new();
    let mut i: usize = 0;
    let n = w.len();
    proof {
        assert(w@.subrange(0, n as int) =~= w@);
        if let Some(r) = unescape(w@) {
            assert(out@ + r =~= r);
        }
    }
    while i < n
        invariant
            n == w@.len(),
            i <= n,
            unescape(w@) == (match unescape(w@.subrange(i as int, n as int)) {
                Some(r) => Some(out@ + r),
                None => None,
            }),
        decreases n - i,
    {
        let ghost rest = w@.subrange(i as int, n as int);
        let c = w[i];
        if c != 92 {
            proof {
                assert(rest.subrange(1, rest.len() as int) =~= w@.subrange(i + 1, n as int));
                assert(seq![c] + seq![] =~= seq![c]);
                if let Some(r) = unescape(w@.subrange(i + 1, n as int)) {
                    assert(out@ + (seq![c] + r) =~= out@.push(c) + r);
                }
            }
            out.push(c);
            i += 1;
        } else if n - i > 3 && is_digit_exec(w[i + 1]) && is_digit_exec(w[i + 2]) && is_digit_exec(w[i + 3]) {
            let v: u32 = (w[i + 1] - 48) as u32 * 100 + (w[i + 2] - 48) as u32 * 10 + (w[i + 3] - 48) as u32;
            if v > 255 {
                return None;
            }
            proof {
                assert(rest.subrange(4, rest.len() as int) =~= w@.subrange(i + 4, n as int));
                if let Some(r) = unescape(w@.subrange(i + 4, n as int)) {
                    assert(out@ + (seq![v as u8] + r) =~= out@.push(v as u8) + r);
                }
            }
            out.push(v as u8);
            i += 4;
        } else if n - i > 1 && !is_digit_exec(w[i + 1]) {
            let d = w[i + 1];
            proof {
                assert(rest.subrange(2, rest.len() as int) =~= w@.subrange(i + 2, n as int));
                if let Some(r) = unescape(w@.subrange(i + 2, n as int)) {
                    assert(out@ + (seq![d] + r) =~= out@.push(d) + r);
                }
            }
            out.push(d);
            i += 2;
        } else {
            return None;
        }
    }
    proof {
        assert(w@.subrange(n as int, n as int) =~= Seq::<u8>::empty());
        assert(out@ + Seq::<u8>::empty() =~= out@);
    }
    Some(out)
}

pub fn is_digit_exec(c: u8) -> (r: bool)
    ensures
        r == is_digit(c),
{
    48 <= c && c <= 57
}

/// Whether a word is the keyword `k`, written in lower case, ignoring
/// ASCII case.
pub fn keyword_is(w: &Vec<u8>, k: &[u8]) -> (r: bool)
    ensures
        r == (fold(w@) == k@),
{
    let f = fold_bytes(w);
    if f.len() != k.len() {
        return false;
    }
    let mut i: usize = 0;
    while i < f.len()
        invariant
            i <= f@.len(),
            f@.len() == k@.len(),
            f@ == fold(w@),
            forall|j: int| 0 <= j < i ==> f@[j] == k@[j],
        decreases f@.len() - i,
    {
        if f[i] != k[i] {
            return false;
        }
        i += 1;
    }
    assert(f@ =~= k@);
    true
}

/// The class of a number.
pub open spec fn class_from_int(v: u16) -> Class {
    if v == 1 {
        Class::In
    } else if v == 3 {
        Class::Ch
    } else if v == 4 {
        Class::Hs
    } else if v == 0xFE {
        Class::NoneClass
    } else if v == 0xFF {
        Class::Any
    } else {
        Class::Int(v)
    }
}

pub fn class_from_int_exec(v: u16) -> (r: Class)
    ensures
        r == class_from_int(v),
{
    if v == 1 {
        Class::In
    } else if v == 3 {
        Class::Ch
    } else if v == 4 {
        Class::Hs
    } else if v == 0xFE {
        Class::NoneClass
    } else if v == 0xFF {
        Class::Any
    } else {
        Class::Int(v)
    }
}

/// The class a word names, if it names one: a mnemonic (`IN`, `CH`, `HS`,
/// `NONE`, `*`) or `CLASS` and the class's number.
pub open spec fn class_of(w: Seq<u8>) -> Option<Class> {
    if fold(w) == seq![105u8, 110u8] {
        Some(Class::In)
    } else if fold(w) == seq![99u8, 104u8] {
        Some(Class::Ch)
    } else if fold(w) == seq![104u8, 115u8] {
        Some(Class::Hs)
    } else if fold(w) == seq![110u8, 111u8, 110u8, 101u8] {
        Some(Class::NoneClass)
    } else if w == seq![42u8] {
        Some(Class::Any)
    } else if w.len() > 5 && fold(w.subrange(0, 5)) == seq![99u8, 108u8, 97u8, 115u8, 115u8]
        && number_of(w.subrange(5, w.len() as int)) is Some
        && number_of(w.subrange(5, w.len() as int))->Some_0 <= 65535 {
        Some(class_from_int(number_of(w.subrange(5, w.len() as int))->Some_0 as u16))
    } else {
        None
    }
}

/// The bytes of `w` from `a` up to `b`.
fn sub_bytes(w: &Vec<u8>, a: usize, b: usize) -> (r: Vec<u8>)
    requires
        a <= b <= w@.len(),
    ensures
        r@ == w@.subrange(a as int, b as int),
{
    let mut r: Vec<u8> = Vec::new();
    let mut i: usize = a;
    while i < b
        invariant
            a <= i <= b,
            b <= w@.len(),
            r@ =~= w@.subrange(a as int, i as int),
        decreases b - i,
    {
        r.push(w[i]);
        i += 1;
    }
    r
}

pub fn parse_class(w: &Vec<u8>) -> (r: Option<Class>)
    ensures
        r == class_of(w@),
{
    proof {
        assert([105u8, 110u8]@ =~= seq![105u8, 110u8]);
        assert([99u8, 104u8]@ =~= seq![99u8, 104u8]);
        assert([104u8, 115u8]@ =~= seq![104u8, 115u8]);
        assert([110u8, 111u8, 110u8, 101u8]@ =~= seq![110u8, 111u8, 110u8, 101u8]);
        assert([99u8, 108u8, 97u8, 115u8, 115u8]@ =~= seq![99u8, 108u8, 97u8, 115u8, 115u8]);
    }
    if keyword_is(w, &[105u8, 110u8]) {
        Some(Class::In)
    } else if keyword_is(w, &[99u8, 104u8]) {
        Some(Class::Ch)
    } else if keyword_is(w, &[104u8, 115u8]) {
        Some(Class::Hs)
    } else if keyword_is(w, &[110u8, 111u8, 110u8, 101u8]) {
        Some(Class::NoneClass)
    } else if w.len() == 1 && w[0] == 42 {
        assert(w@ =~= seq![42u8]);
        Some(Class::Any)
    } else if w.len() > 5 {
        proof {
            if w@ == seq![42u8] {
                assert(w@.len() == 1);
            }
        }
        let head = sub_bytes(w, 0, 5);
        if !keyword_is(&head, &[99u8, 108u8, 97u8, 115u8, 115u8]) {
            return None;
        }
        let tail = sub_bytes(w, 5, w.len());
        match parse_u32(&tail) {
            Some(v) => if v <= 65535 { Some(class_from_int_exec(v as u16)) } else { None },
            None => None,
        }
    } else {
        proof {
            if w@ == seq![42u8] {
                assert(w@[0] == 42);
            }
        }
        None
    }
}

/// The byte that the escape starting at `i` of `s` stands for, and its
/// width: `\DDD` or `\X` for a non-digit `X`.
pub open spec fn escape_spec(s: Seq<u8>, i: int) -> Option<(u8, int)> {
    if i + 3 < s.len() && is_digit(s[i + 1]) && is_digit(s[i + 2]) && is_digit(s[i + 3]) {
        let v = (s[i + 1] - 48) * 100 + (s[i + 2] - 48) * 10 + (s[i + 3] - 48);
        if v <= 255 { Some((v as u8, 4)) } else { None }
    } else if i + 1 < s.len() && !is_digit(s[i + 1]) {
        Some((s[i + 1], 2))
    } else {
        None
    }
}

/// The byte that the escape at `i` of `w` stands for, and its width.
fn escape_at(w: &Vec<u8>, i: usize) -> (r: Option<(u8, usize)>)
    requires
        i < w@.len(),
    ensures
        r is None <==> escape_spec(w@, i as int) is None,
        r matches Some((b, k)) ==> escape_spec(w@, i as int) == Some((b, k as int)) && i + k <= w@.len(),
{
    let n = w.len();
    if n - i > 3 && is_digit_exec(w[i + 1]) && is_digit_exec(w[i + 2]) && is_digit_exec(w[i + 3]) {
        let v: u32 = (w[i + 1] - 48) as u32 * 100 + (w[i + 2] - 48) as u32 * 10 + (w[i + 3] - 48) as u32;
        if v > 255 {
            None
        } else {
            Some((v as u8, 4))
        }
    } else if n - i > 1 && !is_digit_exec(w[i + 1]) {
        Some((w[i + 1], 2))
    } else {
        None
    }
}

/// The labels that the text of a name writes, read from position `i` on
/// with `cur` the label begun and `labels` those ended so far, and whether
/// the name is absolute: labels end at unescaped dots, and a name that ends
/// in one is absolute. An empty label or a bad escape is an error.
pub open spec fn split_name(s: Seq<u8>, i: int, cur: Seq<u8>, labels: Seq<Seq<u8>>) -> Result<(Seq<Seq<u8>>, bool), SyntaxError>
    decreases s.len() - i,
{
    if i >= s.len() || i < 0 {
        if cur.len() > 0 {
            Ok((labels.push(cur), false))
        } else if labels.len() > 0 {
            Ok((labels, true))
        } else {
            Err(SyntaxError::BadLabel)
        }
    } else if s[i] == 46 {
        if cur.len() == 0 { Err(SyntaxError::BadLabel) } else { split_name(s, i + 1, Seq::empty(), labels.push(cur)) }
    } else if s[i] == 92 {
        match escape_spec(s, i) {
            Some((b, k)) => split_name(s, i + k, cur.push(b), labels),
            None => Err(SyntaxError::BadEscape),
        }
    } else {
        split_name(s, i + 1, cur.push(s[i]), labels)
    }
}

/// The name that the text `s` writes with `origin` as the origin, or the
/// error reading it gives.
pub open spec fn name_of(s: Seq<u8>, origin: Option<Seq<Seq<u8>>>) -> Result<Seq<Seq<u8>>, SyntaxError> {
    if s == seq![64u8] {
        match origin {
            Some(o) => if valid_name(o) { Ok(o) } else { Err(SyntaxError::NameTooLong) },
            None => Err(SyntaxError::NoOrigin),
        }
    } else if s == seq![46u8] {
        Ok(Seq::empty())
    } else {
        match split_name(s, 0, Seq::empty(), Seq::empty()) {
            Err(e) => Err(e),
            Ok((labels, absolute)) => {
                if !absolute && origin is None {
                    Err(SyntaxError::NoOrigin)
                } else {
                    let full = if absolute { labels } else { labels + origin->Some_0 };
                    if valid_name(full) { Ok(full) } else { Err(SyntaxError::NameTooLong) }
                }
            },
        }
    }
}

/// The view of an optional name.
pub open spec fn opt_view(o: Option<DName>) -> Option<Seq<Seq<u8>>> {
    match o {
        Some(n) => Some(n@),
        None => None,
    }
}

/// Reads a domain name. `@` is the origin; a name that ends in an
/// unescaped `.` is absolute; any other name is relative to the origin.
pub fn parse_name(raw: &Vec<u8>, origin: &Option<DName>) -> (r: Result<DName, SyntaxError>)
    ensures
        name_of(raw@, opt_view(*origin)) is Ok <==> r is Ok,
        r matches Ok(n) ==> Ok::<Seq<Seq<u8>>, SyntaxError>(n@) == name_of(raw@, opt_view(*origin)) && valid_name(n@),
        r matches Err(e) ==> name_of(raw@, opt_view(*origin)) == Err::<Seq<Seq<u8>>, SyntaxError>(e),
{
    let n = raw.len();
    proof {
        if raw@ == seq![46u8] {
            assert(raw@[0] == 46);
        }
        if raw@ == seq![64u8] {
            assert(raw@[0] == 64);
        }
    }
    if n == 1 && raw[0] == 64 {
        assert(raw@ =~= seq![64u8]);
        return match origin {
            Some(o) => {
                let c = o.copy();
                if c.is_valid() { Ok(c) } else { Err(SyntaxError::NameTooLong) }
            },
            None => Err(SyntaxError::NoOrigin),
        };
    }
    if n == 1 && raw[0] == 46 {
        assert(raw@ =~= seq![46u8]);
        let root = DName::root();
        return Ok(root);
    }
    let mut labels: Vec<Vec<u8>> = Vec::new();
    let mut cur: Vec<u8> = Vec::new();
    let mut i: usize = 0;
    let ghost f = |l: Vec<u8>| l@;
    proof {
        assert(labels@.map_values(f) =~= Seq::<Seq<u8>>::empty());
        assert(cur@ =~= Seq::<u8>::empty());
    }
    while i < n
        invariant
            n == raw@.len(),
            i <= n,
            raw@ != seq![46u8],
            raw@ != seq![64u8],
            f == (|l: Vec<u8>| l@),
            split_name(raw@, 0, Seq::empty(), Seq::empty()) == split_name(raw@, i as int, cur@, labels@.map_values(f)),
        decreases n - i,
    {
        let c = raw[i];
        if c == 46 {
            if cur.len() == 0 {
                return Err(SyntaxError::BadLabel);
            }
            proof {
                assert(labels@.push(cur).map_values(f) =~= labels@.map_values(f).push(cur@));
            }
            labels.push(cur);
            cur = Vec::new();
            proof {
                assert(cur@ =~= Seq::<u8>::empty());
            }
            i += 1;
        } else if c == 92 {
            match escape_at(raw, i) {
                Some((b, k)) => {
                    cur.push(b);
                    i += k;
                },
                None => {
                    return Err(SyntaxError::BadEscape);
                },
            }
        } else {
            cur.push(c);
            i += 1;
        }
    }
    let absolute = cur.len() == 0;
    if absolute {
        if labels.len() == 0 {
            return Err(SyntaxError::BadLabel);
        }
    } else {
        proof {
            assert(labels@.push(cur).map_values(f) =~= labels@.map_values(f).push(cur@));
        }
        labels.push(cur);
    }
    let name = DName::from_labels(labels);
    let full = if absolute {
        name
    } else {
        match origin {
            Some(o) => name.concat(o),
            None => {
                return Err(SyntaxError::NoOrigin);
            },
        }
    };
    if full.is_valid() {
        Ok(full)
    } else {
        Err(SyntaxError::NameTooLong)
    }
}

/// The record type a word names, if it names one this reader knows.
pub open spec fn type_of(w: Seq<u8>) -> Option<Rtype> {
    let f = fold(w);
    if f == seq![97u8] {
        Some(Rtype::A)
    } else if f == seq![110u8, 115u8] {
        Some(Rtype::Ns)
    } else if f == seq![99u8, 110u8, 97u8, 109u8, 101u8] {
        Some(Rtype::Cname)
    } else if f == seq![115u8, 111u8, 97u8] {
        Some(Rtype::Soa)
    } else if f == seq![112u8, 116u8, 114u8] {
        Some(Rtype::Ptr)
    } else if f == seq![109u8, 120u8] {
        Some(Rtype::Mx)
    } else if f == seq![116u8, 120u8, 116u8] {
        Some(Rtype::Txt)
    } else {
        None
    }
}

pub fn parse_type(w: &Vec<u8>) -> (r: Option<Rtype>)
    ensures
        r == type_of(w@),
{
    assert([97u8]@ =~= seq![97u8]);
    assert([110u8, 115u8]@ =~= seq![110u8, 115u8]);
    assert([99u8, 110u8, 97u8, 109u8, 101u8]@ =~= seq![99u8, 110u8, 97u8, 109u8, 101u8]);
    assert([115u8, 111u8, 97u8]@ =~= seq![115u8, 111u8, 97u8]);
    assert([112u8, 116u8, 114u8]@ =~= seq![112u8, 116u8, 114u8]);
    assert([109u8, 120u8]@ =~= seq![109u8, 120u8]);
    assert([116u8, 120u8, 116u8]@ =~= seq![116u8, 120u8, 116u8]);
    if keyword_is(w, &[97u8]) {
        Some(Rtype::A)
    } else if keyword_is(w, &[110u8, 115u8]) {
        Some(Rtype::Ns)
    } else if keyword_is(w, &[99u8, 110u8, 97u8, 109u8, 101u8]) {
        Some(Rtype::Cname)
    } else if keyword_is(w, &[115u8, 111u8, 97u8]) {
        Some(Rtype::Soa)
    } else if keyword_is(w, &[112u8, 116u8, 114u8]) {
        Some(Rtype::Ptr)
    } else if keyword_is(w, &[109u8, 120u8]) {
        Some(Rtype::Mx)
    } else if keyword_is(w, &[116u8, 120u8, 116u8]) {
        Some(Rtype::Txt)
    } else {
        None
    }
}

/// The text of an octet: one to three digits of a value up to 255.
pub open spec fn octet_of(s: Seq<u8>) -> Option<u8> {
    if 1 <= s.len() <= 3 && number_of(s) is Some && number_of(s)->Some_0 <= 255 {
        Some(number_of(s)->Some_0 as u8)
    } else {
        None
    }
}

/// The parts of `s` between dots.
pub open spec fn dot_parts(s: Seq<u8>) -> Seq<Seq<u8>>
    decreases s.len(),
{
    if s.len() == 0 {
        seq![Seq::empty()]
    } else {
        let rest = dot_parts(s.drop_last());
        if s.last() == 46 {
            rest.push(Seq::empty())
        } else {
            rest.update(rest.len() - 1, rest.last().push(s.last()))
        }
    }
}

/// Whether `s` is an IPv4 address in dotted-quad form.
pub open spec fn is_quad(s: Seq<u8>) -> bool {
    let p = dot_parts(s);
    p.len() == 4 && octet_of(p[0]) is Some && octet_of(p[1]) is Some && octet_of(p[2]) is Some
        && octet_of(p[3]) is Some
}

/// Reads an octet.
fn parse_octet(w: &Vec<u8>) -> (r: Option<u8>)
    ensures
        r == octet_of(w@),
{
    if w.len() < 1 || w.len() > 3 {
        return None;
    }
    match parse_u32(w) {
        Some(v) => if v <= 255 { Some(v as u8) } else { None },
        None => None,
    }
}

/// Reads an IPv4 address in dotted-quad form.
pub fn parse_a(w: &Vec<u8>) -> (r: Option<[u8; 4]>)
    ensures
        r is Some <==> is_quad(w@),
        r matches Some(x) ==> forall|k: int| 0 <= k < 4 ==> octet_of(dot_parts(w@)[k]) == Some(#[trigger] x[k]),
{
    let mut parts: Vec<Vec<u8>> = Vec::new();
    let mut cur: Vec<u8> = Vec::new();
    let mut i: usize = 0;
    let ghost f = |p: Vec<u8>| p@;
    proof {
        assert(w@.subrange(0, 0) =~= Seq::<u8>::empty());
        assert(parts@.map_values(f).push(cur@) =~= dot_parts(Seq::<u8>::empty()));
    }
    while i < w.len()
        invariant
            i <= w@.len(),
            f == (|p: Vec<u8>| p@),
            parts@.map_values(f).push(cur@) == dot_parts(w@.subrange(0, i as int)),
        decreases w@.len() - i,
    {
        let c = w[i];
        proof {
            assert(w@.subrange(0, i as int + 1).drop_last() =~= w@.subrange(0, i as int));
        }
        if c == 46 {
            proof {
                assert(parts@.push(cur).map_values(f) =~= parts@.map_values(f).push(cur@));
            }
            parts.push(cur);
            cur = Vec::new();
            proof {
                assert(parts@.map_values(f).push(cur@) =~= dot_parts(w@.subrange(0, i as int)).push(Seq::empty()));
            }
        } else {
            cur.push(c);
            proof {
                assert(parts@.map_values(f).push(cur@) =~= dot_parts(w@.subrange(0, i as int))
                    .update(parts@.len() as int, dot_parts(w@.subrange(0, i as int)).last().push(c)));
            }
        }
        i += 1;
    }
    proof {
        assert(w@.subrange(0, w@.len() as int) =~= w@);
        assert(parts@.map_values(f).push(cur@)[parts@.len() as int] == cur@);
    }
    if parts.len() != 3 {
        return None;
    }
    proof {
        assert(parts@[0]@ == dot_parts(w@)[0]);
        assert(parts@[1]@ == dot_parts(w@)[1]);
        assert(parts@[2]@ == dot_parts(w@)[2]);
    }
    let a = parse_octet(&parts[0]);
    let b = parse_octet(&parts[1]);
    let c = parse_octet(&parts[2]);
    let d = parse_octet(&cur);
    match (a, b, c, d) {
        (Some(a), Some(b), Some(c), Some(d)) => {
            let x = [a, b, c, d];
            assert(x[0] == a && x[1] == b && x[2] == c && x[3] == d);
            Some(x)
        },
        _ => None,
    }
}

/// Record data, as values.
pub ghost enum RdataView {
    A(Seq<u8>),
    Ns(Seq<Seq<u8>>),
    Cname(Seq<Seq<u8>>),
    Ptr(Seq<Seq<u8>>),
    Mx(u16, Seq<Seq<u8>>),
    Soa(Seq<Seq<u8>>, Seq<Seq<u8>>, u32, u32, u32, u32, u32),
    Txt(Seq<Seq<u8>>),
}

pub open spec fn rdata_view(d: MasterRecordData) -> RdataView {
    match d {
        MasterRecordData::A(x) => RdataView::A(seq![x[0], x[1], x[2], x[3]]),
        MasterRecordData::Ns(n) => RdataView::Ns(n@),
        MasterRecordData::Cname(n) => RdataView::Cname(n@),
        MasterRecordData::Ptr(n) => RdataView::Ptr(n@),
        MasterRecordData::Mx(p, n) => RdataView::Mx(p, n@),
        MasterRecordData::Soa(s) => RdataView::Soa(s.mname@, s.rname@, s.serial, s.refresh, s.retry, s.expire, s.minimum),
        MasterRecordData::Txt(t) => RdataView::Txt(t@.map_values(|b: Vec<u8>| b@)),
    }
}

/// The data of type `t` that the words of `ws` from `j` on write, or
/// `None` where they write none.
pub open spec fn rdata_spec(t: Rtype, ws: Seq<Seq<u8>>, j: int, origin: Option<Seq<Seq<u8>>>) -> Option<RdataView> {
    let count = ws.len() - j;
    match t {
        Rtype::A => if count == 1 && is_quad(ws[j]) {
            let p = dot_parts(ws[j]);
            Some(RdataView::A(seq![octet_of(p[0])->Some_0, octet_of(p[1])->Some_0, octet_of(p[2])->Some_0, octet_of(p[3])->Some_0]))
        } else {
            None
        },
        Rtype::Ns | Rtype::Cname | Rtype::Ptr => if count == 1 && name_of(ws[j], origin) is Ok {
            let n = name_of(ws[j], origin)->Ok_0;
            Some(match t {
                Rtype::Ns => RdataView::Ns(n),
                Rtype::Cname => RdataView::Cname(n),
                _ => RdataView::Ptr(n),
            })
        } else {
            None
        },
        Rtype::Mx => if count == 2 && number_of(ws[j]) is Some && number_of(ws[j])->Some_0 <= 65535
            && name_of(ws[j + 1], origin) is Ok {
            Some(RdataView::Mx(number_of(ws[j])->Some_0 as u16, name_of(ws[j + 1], origin)->Ok_0))
        } else {
            None
        },
        Rtype::Soa => if count == 7 && name_of(ws[j], origin) is Ok && name_of(ws[j + 1], origin) is Ok
            && (forall|k: int| j + 2 <= k < j + 7 ==> #[trigger] number_of(ws[k]) is Some) {
            Some(RdataView::Soa(name_of(ws[j], origin)->Ok_0, name_of(ws[j + 1], origin)->Ok_0,
                number_of(ws[j + 2])->Some_0, number_of(ws[j + 3])->Some_0, number_of(ws[j + 4])->Some_0,
                number_of(ws[j + 5])->Some_0, number_of(ws[j + 6])->Some_0))
        } else {
            None
        },
        Rtype::Txt => if count >= 1 && (forall|k: int| j <= k < ws.len() ==>
            #[trigger] unescape(ws[k]) is Some && unescape(ws[k])->Some_0.len() <= 255) {
            Some(RdataView::Txt(Seq::new(count as nat, |k: int| unescape(ws[j + k])->Some_0)))
        } else {
            None
        },
        Rtype::Int(_) => None,
    }
}

/// Reads the record data of type `t` from the words of `ws` from `j` on.
pub fn parse_rdata(t: Rtype, ws: &Vec<Word>, j: usize, origin: &Option<DName>) -> (r: Result<MasterRecordData, SyntaxError>)
    requires
        j <= ws@.len(),
    ensures
        r is Ok <==> rdata_spec(t, raws(ws@), j as int, opt_view(*origin)) is Some,
        r matches Ok(d) ==> rdata_spec(t, raws(ws@), j as int, opt_view(*origin)) == Some(rdata_view(d)),
        r matches Ok(d) ==> d.rtype_spec() == t,
        r is Ok ==> ws@.len() - j == (match t {
            Rtype::Mx => 2int,
            Rtype::Soa => 7int,
            Rtype::Txt => ws@.len() - j,
            _ => 1int,
        }) && ws@.len() > j,
        r matches Ok(MasterRecordData::A(x)) ==> is_quad(ws@[j as int].raw@)
            && forall|k: int| 0 <= k < 4 ==> octet_of(dot_parts(ws@[j as int].raw@)[k]) == Some(#[trigger] x[k]),
        r matches Ok(MasterRecordData::Ns(n)) ==> name_of(ws@[j as int].raw@, opt_view(*origin)) == Ok::<Seq<Seq<u8>>, SyntaxError>(n@),
        r matches Ok(MasterRecordData::Cname(n)) ==> name_of(ws@[j as int].raw@, opt_view(*origin)) == Ok::<Seq<Seq<u8>>, SyntaxError>(n@),
        r matches Ok(MasterRecordData::Ptr(n)) ==> name_of(ws@[j as int].raw@, opt_view(*origin)) == Ok::<Seq<Seq<u8>>, SyntaxError>(n@),
        r matches Ok(MasterRecordData::Mx(p, n)) ==> name_of(ws@[j + 1].raw@, opt_view(*origin)) == Ok::<Seq<Seq<u8>>, SyntaxError>(n@)
            && number_of(ws@[j as int].raw@) == Some(p as u32),
        r matches Ok(MasterRecordData::Soa(soa)) ==> name_of(ws@[j as int].raw@, opt_view(*origin)) == Ok::<Seq<Seq<u8>>, SyntaxError>(soa.mname@)
            && name_of(ws@[j + 1].raw@, opt_view(*origin)) == Ok::<Seq<Seq<u8>>, SyntaxError>(soa.rname@)
            && number_of(ws@[j + 2].raw@) == Some(soa.serial)
            && number_of(ws@[j + 3].raw@) == Some(soa.refresh)
            && number_of(ws@[j + 4].raw@) == Some(soa.retry)
            && number_of(ws@[j + 5].raw@) == Some(soa.expire)
            && number_of(ws@[j + 6].raw@) == Some(soa.minimum),
        r matches Ok(MasterRecordData::Txt(strings)) ==> strings@.len() == ws@.len() - j
            && forall|k: int| 0 <= k < strings@.len()
                ==> Some((#[trigger] strings@[k])@) == unescape(ws@[j + k].raw@),
{
    let count = ws.len() - j;
    proof {
        assert(forall|k: int| 0 <= k < ws@.len() ==> #[trigger] raws(ws@)[k] == ws@[k].raw@);
    }
    match t {
        Rtype::A => {
            if count != 1 {
                return Err(SyntaxError::BadRdata);
            }
            match parse_a(&ws[j].raw) {
                Some(a) => Ok(MasterRecordData::A(a)),
                None => Err(SyntaxError::BadRdata),
            }
        },
        Rtype::Ns | Rtype::Cname | Rtype::Ptr => {
            if count != 1 {
                return Err(SyntaxError::BadRdata);
            }
            let name = parse_name(&ws[j].raw, origin)?;
            match t {
                Rtype::Ns => Ok(MasterRecordData::Ns(name)),
                Rtype::Cname => Ok(MasterRecordData::Cname(name)),
                _ => Ok(MasterRecordData::Ptr(name)),
            }
        },
        Rtype::Mx => {
            if count != 2 {
                return Err(SyntaxError::BadRdata);
            }
            let pref = match parse_u32(&ws[j].raw) {
                Some(v) => v,
                None => {
                    return Err(SyntaxError::BadNumber);
                },
            };
            if pref > 65535 {
                return Err(SyntaxError::BadNumber);
            }
            let exchange = parse_name(&ws[j + 1].raw, origin)?;
            Ok(MasterRecordData::Mx(pref as u16, exchange))
        },
        Rtype::Soa => {
            if count != 7 {
                return Err(SyntaxError::BadRdata);
            }
            let mname = parse_name(&ws[j].raw, origin)?;
            let rname = parse_name(&ws[j + 1].raw, origin)?;
            let mut nums: Vec<u32> = Vec::new();
            let mut k: usize = j + 2;
            while k < ws.len()
                invariant
                    j + 2 <= k <= ws@.len(),
                    j + 7 == ws@.len(),
                    nums@.len() == k - (j + 2),
                    t == Rtype::Soa,
                    forall|m: int| 0 <= m < ws@.len() ==> #[trigger] raws(ws@)[m] == ws@[m].raw@,
                    forall|m: int| 0 <= m < nums@.len() ==> number_of(ws@[j + 2 + m].raw@) == Some(#[trigger] nums@[m]),
                decreases ws@.len() - k,
            {
                match parse_u32(&ws[k].raw) {
                    Some(v) => nums.push(v),
                    None => {
                        proof {
                            assert(number_of(raws(ws@)[k as int]) is None);
                        }
                        return Err(SyntaxError::BadNumber);
                    },
                }
                k += 1;
            }
            Ok(MasterRecordData::Soa(Soa {
                mname,
                rname,
                serial: nums[0],
                refresh: nums[1],
                retry: nums[2],
                expire: nums[3],
                minimum: nums[4],
            }))
        },
        Rtype::Txt => {
            if count == 0 {
                return Err(SyntaxError::BadRdata);
            }
            let mut strings: Vec<Vec<u8>> = Vec::new();
            let mut k: usize = j;
            while k < ws.len()
                invariant
                    j <= k <= ws@.len(),
                    strings@.len() == k - j,
                    t == Rtype::Txt,
                    j < ws@.len(),
                    forall|m: int| 0 <= m < ws@.len() ==> #[trigger] raws(ws@)[m] == ws@[m].raw@,
                    forall|m: int| 0 <= m < strings@.len() ==> (#[trigger] strings@[m])@.len() <= 255,
                    forall|m: int| 0 <= m < strings@.len()
                        ==> Some((#[trigger] strings@[m])@) == unescape(ws@[j + m].raw@),
                decreases ws@.len() - k,
            {
                match unescape_word(&ws[k].raw) {
                    Some(b) => {
                        if b.len() > 255 {
                            proof {
                                assert(unescape(raws(ws@)[k as int])->Some_0.len() > 255);
                            }
                            return Err(SyntaxError::BadRdata);
                        }
                        strings.push(b);
                    },
                    None => {
                        proof {
                            assert(unescape(raws(ws@)[k as int]) is None);
                        }
                        return Err(SyntaxError::BadEscape);
                    },
                }
                k += 1;
            }
            proof {
                let rw = raws(ws@);
                assert forall|k: int| j <= k < rw.len() implies
                    #[trigger] unescape(rw[k]) is Some && unescape(rw[k])->Some_0.len() <= 255 by {
                    assert(Some(strings@[k - j]@) == unescape(ws@[k].raw@));
                }
                assert(strings@.map_values(|b: Vec<u8>| b@) =~= Seq::new((rw.len() - j) as nat, |k: int| unescape(rw[j + k])->Some_0));
            }
            Ok(MasterRecordData::Txt(strings))
        },
        Rtype::Int(_) => Err(SyntaxError::UnknownType),
    }
}

/// An entry of a master file.
#[derive(Debug)]
pub enum Entry {
    /// `$ORIGIN`: the origin for the names that follow.
    Origin(DName),
    /// `$TTL`: the TTL for records that give none.
    Ttl(u32),
    /// `$INCLUDE`: a file to read in place, and the origin to read it with.
    Include { path: Vec<u8>, origin: Option<DName> },
    /// Any other `$` directive.
    Control,
    /// A resource record.
    Record(MasterRecord),
    /// A line with no words.
    Blank,
}

/// The escaped text of each word.
pub open spec fn raws(ws: Seq<Word>) -> Seq<Seq<u8>> {
    ws.map_values(|w: Word| w.raw@)
}

/// Whether a line is a `$` directive: unindented, its first word unquoted
/// and starting with `$`.
pub open spec fn is_directive(line: Line) -> bool {
    &&& !line.indented
    &&& line.words@.len() > 0
    &&& !line.words@[0].quoted
    &&& line.words@[0].raw@.len() > 0
    &&& line.words@[0].raw@[0] == 36
}

/// A record, as values: owner, class, TTL and data.
pub ghost struct RecordView {
    pub owner: Seq<Seq<u8>>,
    pub class: Class,
    pub ttl: u32,
    pub rdata: RdataView,
}

/// An entry, as values.
pub ghost enum EntryView {
    Origin(Seq<Seq<u8>>),
    Ttl(u32),
    Include(Seq<u8>, Option<Seq<Seq<u8>>>),
    Control,
    Record(RecordView),
    Blank,
}

pub open spec fn record_view(r: MasterRecord) -> RecordView {
    RecordView { owner: r.owner@, class: r.class, ttl: r.ttl, rdata: rdata_view(r.rdata) }
}

pub open spec fn entry_view(e: Entry) -> EntryView {
    match e {
        Entry::Origin(o) => EntryView::Origin(o@),
        Entry::Ttl(t) => EntryView::Ttl(t),
        Entry::Include { path, origin } => EntryView::Include(path@, opt_view(origin)),
        Entry::Control => EntryView::Control,
        Entry::Record(r) => EntryView::Record(record_view(r)),
        Entry::Blank => EntryView::Blank,
    }
}

/// The entry that the words `wv` of a line write (each with whether it
/// was quoted), the line indented or not, given the previous record's
/// owner and class and the origin and TTL set by directives; `None` where
/// the line is malformed.
pub open spec fn entry_spec(
    wv: Seq<(Seq<u8>, bool)>,
    indented: bool,
    last_owner: Option<Seq<Seq<u8>>>,
    last_class: Option<Class>,
    origin: Option<Seq<Seq<u8>>>,
    ttl: Option<u32>,
) -> Option<EntryView> {
    let n = wv.len();
    let ws = wv.map_values(|p: (Seq<u8>, bool)| p.0);
    if n == 0 {
        Some(EntryView::Blank)
    } else if !indented && !wv[0].1 && ws[0].len() > 0 && ws[0][0] == 36 {
        if fold(ws[0]) == seq![36u8, 111u8, 114u8, 105u8, 103u8, 105u8, 110u8] {
            if n == 2 && name_of(ws[1], origin) is Ok { Some(EntryView::Origin(name_of(ws[1], origin)->Ok_0)) } else { None }
        } else if fold(ws[0]) == seq![36u8, 116u8, 116u8, 108u8] {
            if n == 2 && number_of(ws[1]) is Some { Some(EntryView::Ttl(number_of(ws[1])->Some_0)) } else { None }
        } else if fold(ws[0]) == seq![36u8, 105u8, 110u8, 99u8, 108u8, 117u8, 100u8, 101u8] {
            if (n == 2 || n == 3) && unescape(ws[1]) is Some {
                if n == 3 {
                    if name_of(ws[2], origin) is Ok {
                        Some(EntryView::Include(unescape(ws[1])->Some_0, Some(name_of(ws[2], origin)->Ok_0)))
                    } else {
                        None
                    }
                } else {
                    Some(EntryView::Include(unescape(ws[1])->Some_0, None))
                }
            } else {
                None
            }
        } else {
            Some(EntryView::Control)
        }
    } else {
        let owner: Option<(Seq<Seq<u8>>, int)> = if indented {
            match last_owner {
                Some(o) => Some((o, 0int)),
                None => None,
            }
        } else if name_of(ws[0], origin) is Ok {
            Some((name_of(ws[0], origin)->Ok_0, 1int))
        } else {
            None
        };
        match owner {
            None => None,
            Some((o, start)) => {
                let h = header(ws, start);
                if h.2 >= n || type_of(ws[h.2]) is None || (h.0 is None && ttl is None) {
                    None
                } else {
                    let t = type_of(ws[h.2])->Some_0;
                    match rdata_spec(t, ws, h.2 + 1, origin) {
                        Some(d) => Some(EntryView::Record(RecordView {
                            owner: o,
                            class: if h.1 is Some { h.1->Some_0 } else if last_class is Some { last_class->Some_0 } else { Class::In },
                            ttl: if h.0 is Some { h.0->Some_0 } else { ttl->Some_0 },
                            rdata: d,
                        })),
                        None => None,
                    }
                }
            },
        }
    }
}

/// One step through the optional TTL and class of a record, which may
/// come in either order: a number is the TTL, a class name the class.
pub open spec fn header_step(ws: Seq<Seq<u8>>, h: (Option<u32>, Option<Class>, int)) -> (Option<u32>, Option<Class>, int) {
    let (t, c, i) = h;
    if 0 <= i < ws.len() && t is None && number_of(ws[i]) is Some {
        (number_of(ws[i]), c, i + 1)
    } else if 0 <= i < ws.len() && c is None && class_of(ws[i]) is Some {
        (t, class_of(ws[i]), i + 1)
    } else {
        h
    }
}

/// The TTL and class a record gives, if any, and where its type stands.
pub open spec fn header(ws: Seq<Seq<u8>>, i: int) -> (Option<u32>, Option<Class>, int) {
    header_step(ws, header_step(ws, (None, None, i)))
}

fn header_exec(ws: &Vec<Word>, h: (Option<u32>, Option<Class>, usize)) -> (r: (Option<u32>, Option<Class>, usize))
    requires
        h.2 <= ws@.len(),
    ensures
        (r.0, r.1, r.2 as int) == header_step(raws(ws@), (h.0, h.1, h.2 as int)),
        r.2 <= ws@.len(),
{
    let (t, c, i) = h;
    if i < ws.len() {
        let ghost w = raws(ws@)[i as int];
        assert(w == ws@[i as int].raw@);
        if t.is_none() {
            if let Some(v) = parse_u32(&ws[i].raw) {
                return (Some(v), c, i + 1);
            }
        }
        if c.is_none() {
            if let Some(k) = parse_class(&ws[i].raw) {
                return (t, Some(k), i + 1);
            }
        }
    }
    (t, c, i)
}

/// Reads one entry from its words. `last_owner` and `last_class` are those
/// of the previous record, `origin` and `ttl` those set by directives.
pub fn parse_entry(line: &Line, last_owner: &Option<DName>, last_class: Option<Class>, origin: &Option<DName>, ttl: Option<u32>)
    -> (r: Result<Entry, SyntaxError>)
    ensures
        r is Ok <==> entry_spec(crate::scan::words_view(line.words@), line.indented, opt_view(*last_owner), last_class,
            opt_view(*origin), ttl) is Some,
        r matches Ok(e) ==> entry_spec(crate::scan::words_view(line.words@), line.indented, opt_view(*last_owner),
            last_class, opt_view(*origin), ttl) == Some(entry_view(e)),
{
    let ws = &line.words;
    let n = ws.len();
    let ghost wv = crate::scan::words_view(ws@);
    proof {
        assert(wv.map_values(|p: (Seq<u8>, bool)| p.0) =~= raws(ws@));
        assert(forall|m: int| 0 <= m < ws@.len() ==> #[trigger] raws(ws@)[m] == ws@[m].raw@);
        assert(forall|m: int| 0 <= m < ws@.len() ==> #[trigger] wv[m] == (ws@[m].raw@, ws@[m].quoted));
        assert([36u8, 111u8, 114u8, 105u8, 103u8, 105u8, 110u8]@ =~= seq![36u8, 111u8, 114u8, 105u8, 103u8, 105u8, 110u8]);
        assert([36u8, 116u8, 116u8, 108u8]@ =~= seq![36u8, 116u8, 116u8, 108u8]);
        assert([36u8, 105u8, 110u8, 99u8, 108u8, 117u8, 100u8, 101u8]@ =~= seq![36u8, 105u8, 110u8, 99u8, 108u8, 117u8, 100u8, 101u8]);
    }
    if n == 0 {
        return Ok(Entry::Blank);
    }
    if !line.indented && !ws[0].quoted && ws[0].raw.len() > 0 && ws[0].raw[0] == 36 {
        let d = &ws[0].raw;
        if keyword_is(d, &[36u8, 111u8, 114u8, 105u8, 103u8, 105u8, 110u8]) {
            if n != 2 {
                return Err(SyntaxError::BadDirective);
            }
            let o = parse_name(&ws[1].raw, origin)?;
            return Ok(Entry::Origin(o));
        } else if keyword_is(d, &[36u8, 116u8, 116u8, 108u8]) {
            if n != 2 {
                return Err(SyntaxError::BadDirective);
            }
            return match parse_u32(&ws[1].raw) {
                Some(v) => Ok(Entry::Ttl(v)),
                None => Err(SyntaxError::BadNumber),
            };
        } else if keyword_is(d, &[36u8, 105u8, 110u8, 99u8, 108u8, 117u8, 100u8, 101u8]) {
            if n != 2 && n != 3 {
                return Err(SyntaxError::BadDirective);
            }
            let path = match unescape_word(&ws[1].raw) {
                Some(p) => p,
                None => {
                    return Err(SyntaxError::BadEscape);
                },
            };
            let inc_origin = if n == 3 {
                Some(parse_name(&ws[2].raw, origin)?)
            } else {
                None
            };
            return Ok(Entry::Include { path, origin: inc_origin });
        } else {
            return Ok(Entry::Control);
        }
    }
    let (owner, start) = if line.indented {
        match last_owner {
            Some(o) => (o.copy(), 0usize),
            None => {
                return Err(SyntaxError::NoOwner);
            },
        }
    } else {
        (parse_name(&ws[0].raw, origin)?, 1usize)
    };
    let h1 = header_exec(ws, (None, None, start));
    let (rttl, rclass, i) = header_exec(ws, h1);
    if i >= n {
        return Err(SyntaxError::BadRdata);
    }
    let t = match parse_type(&ws[i].raw) {
        Some(t) => t,
        None => {
            return Err(SyntaxError::UnknownType);
        },
    };
    let record_ttl = match rttl {
        Some(v) => v,
        None => match ttl {
            Some(v) => v,
            None => {
                return Err(SyntaxError::NoTtl);
            },
        },
    };
    let class = match rclass {
        Some(c) => c,
        None => match last_class {
            Some(c) => c,
            None => Class::In,
        },
    };
    let rdata = parse_rdata(t, ws, i + 1, origin)?;
    proof {
        assert(raws(ws@)[i as int] == ws@[i as int].raw@);
    }
    Ok(Entry::Record(MasterRecord { owner, class, ttl: record_ttl, rdata }))
}

} // verus!
