//! Domain names and labelettes, the units of descent in the zone trees.

use vstd::prelude::*;

verus! {

/// What a labelette is in the trees: a normal label with its bytes folded to
/// lower case, or one bit of a binary label.
pub ghost enum Key {
    Normal(Seq<u8>),
    Bit(bool),
}

/// ASCII case folding of one byte.
pub open spec fn fold_byte(b: u8) -> u8 {
    if 65 <= b && b <= 90 {
        (b + 32) as u8
    } else {
        b
    }
}

/// ASCII case folding of a byte string.
pub open spec fn fold(s: Seq<u8>) -> Seq<u8> {
    s.map_values(|b: u8| fold_byte(b))
}

/// The keys of a relative name, root-first: the labels in reverse display
/// order, folded.
pub open spec fn name_path(labels: Seq<Seq<u8>>) -> Seq<Key> {
    Seq::new(labels.len(), |i: int| Key::Normal(fold(labels[labels.len() - 1 - i])))
}

/// The labelettes of `ls` from position `d` on.
pub fn labelettes_from(ls: &Vec<Labelette>, d: usize) -> (r: Vec<Labelette>)
    requires
        d <= ls@.len(),
    ensures
        keys_of(r@) == keys_of(ls@).subrange(d as int, ls@.len() as int),
{
    let mut r: Vec<Labelette> = Vec::new();
    let mut i: usize = d;
    while i < ls.len()
        invariant
            d <= i <= ls@.len(),
            keys_of(r@) =~= keys_of(ls@).subrange(d as int, i as int),
        decreases ls@.len() - i,
    {
        let l = ls[i].copy_of();
        proof {
            assert(keys_of(r@.push(l)) =~= keys_of(r@).push(l.key()));
        }
        r.push(l);
        i += 1;
    }
    r
}

/// The length of a name in wire format: each label with its length octet,
/// and the root label.
pub open spec fn wire_len(labels: Seq<Seq<u8>>) -> nat
    decreases labels.len(),
{
    if labels.len() == 0 {
        1
    } else {
        wire_len(labels.drop_last()) + labels.last().len() + 1
    }
}

/// A name whose labels are 1 to 63 octets long, and which is at most 255
/// octets long in wire format.
pub open spec fn valid_name(labels: Seq<Seq<u8>>) -> bool {
    &&& forall|i: int| 0 <= i < labels.len() ==> 1 <= (#[trigger] labels[i]).len() <= 63
    &&& wire_len(labels) <= 255
}

/// The keys of a sequence of labelettes.
pub open spec fn keys_of(ls: Seq<Labelette>) -> Seq<Key> {
    ls.map_values(|l: Labelette| l.key())
}

/// A name is at least as long in wire format as any of its leading parts.
proof fn lemma_wire_len_grows(labels: Seq<Seq<u8>>, i: int)
    requires
        0 <= i <= labels.len(),
    ensures
        wire_len(labels) >= wire_len(labels.subrange(0, i)),
    decreases labels.len() - i,
{
    if i < labels.len() {
        lemma_wire_len_grows(labels, i + 1);
        assert(labels.subrange(0, i + 1).drop_last() =~= labels.subrange(0, i));
    } else {
        assert(labels.subrange(0, i) =~= labels);
    }
}

/// One step of descent through a tree.
#[derive(Debug)]
pub enum Labelette {
    Normal(Vec<u8>),
    Bit(bool),
}

impl Labelette {
    pub open spec fn key(self) -> Key {
        match self {
            Labelette::Normal(b) => Key::Normal(fold(b@)),
            Labelette::Bit(x) => Key::Bit(x),
        }
    }

    /// The labelette of the root label.
    pub fn root() -> (r: Labelette)
        ensures
            r.key() == Key::Normal(Seq::<u8>::empty()),
            r.is_root_spec(),
    {
        let r = Labelette::Normal(Vec::new());
        assert(fold(Seq::<u8>::empty()) =~= Seq::<u8>::empty());
        r
    }

    pub open spec fn is_root_spec(self) -> bool {
        self is Normal && self->Normal_0@.len() == 0
    }

    pub fn is_root(&self) -> (r: bool)
        ensures
            r == self.is_root_spec(),
    {
        match self {
            Labelette::Normal(b) => b.len() == 0,
            Labelette::Bit(_) => false,
        }
    }

    /// A copy of the labelette.
    pub fn copy_of(&self) -> (r: Labelette)
        ensures
            r.key() == self.key(),
    {
        match self {
            Labelette::Normal(b) => Labelette::Normal(copy_bytes(b)),
            Labelette::Bit(x) => Labelette::Bit(*x),
        }
    }

    /// The wildcard label `*`.
    pub fn wildcard() -> (r: Labelette)
        ensures
            r.key() == Key::Normal(seq![42u8]),
    {
        let mut v: Vec<u8> = Vec::new();
        v.push(42u8);
        let r = Labelette::Normal(v);
        assert(fold(v@) =~= seq![42u8]);
        r
    }
}

/// Folds one byte to lower case.
pub fn fold_byte_exec(b: u8) -> (r: u8)
    ensures
        r == fold_byte(b),
{
    if 65 <= b && b <= 90 {
        b + 32
    } else {
        b
    }
}

/// Folds a byte string to lower case.
pub fn fold_bytes(b: &Vec<u8>) -> (r: Vec<u8>)
    ensures
        r@ == fold(b@),
{
    let mut r: Vec<u8> = Vec::new();
    let mut i: usize = 0;
    while i < b.len()
        invariant
            i <= b.len(),
            r@ =~= fold(b@.subrange(0, i as int)),
        decreases b.len() - i,
    {
        r.push(fold_byte_exec(b[i]));
        i += 1;
        assert(b@.subrange(0, i as int) =~= b@.subrange(0, i - 1).push(b@[i - 1]));
    }
    assert(b@.subrange(0, b.len() as int) =~= b@);
    r
}

/// A copy of a byte string.
pub fn copy_bytes(b: &Vec<u8>) -> (r: Vec<u8>)
    ensures
        r@ == b@,
{
    let mut r: Vec<u8> = Vec::new();
    let mut i: usize = 0;
    while i < b.len()
        invariant
            i <= b.len(),
            r@ =~= b@.subrange(0, i as int),
        decreases b.len() - i,
    {
        r.push(b[i]);
        i += 1;
    }
    r
}

/// Whether two byte strings are equal.
pub fn bytes_eq(a: &Vec<u8>, b: &Vec<u8>) -> (r: bool)
    ensures
        r == (a@ == b@),
{
    if a.len() != b.len() {
        return false;
    }
    let mut i: usize = 0;
    while i < a.len()
        invariant
            i <= a.len(),
            a.len() == b.len(),
            forall|k: int| 0 <= k < i ==> a@[k] == b@[k],
        decreases a.len() - i,
    {
        if a[i] != b[i] {
            return false;
        }
        i += 1;
    }
    assert(a@ =~= b@);
    true
}

/// Whether two labels are equal when ASCII case is ignored.
pub fn label_eq(a: &Vec<u8>, b: &Vec<u8>) -> (r: bool)
    ensures
        r == (fold(a@) == fold(b@)),
{
    let fa = fold_bytes(a);
    let fb = fold_bytes(b);
    bytes_eq(&fa, &fb)
}

/// A domain name as its labels in display order, leftmost first, without
/// the root label. Whether the name is absolute or relative is up to the
/// context it stands in.
#[derive(Debug)]
pub struct DName {
    labels: Vec<Vec<u8>>,
}

impl View for DName {
    type V = Seq<Seq<u8>>;

    closed spec fn view(&self) -> Seq<Seq<u8>> {
        self.labels@.map_values(|l: Vec<u8>| l@)
    }
}

impl DName {
    /// The keys of the name's labels, root-first.
    pub open spec fn path(&self) -> Seq<Key> {
        name_path(self@)
    }

    /// The empty name: the root when absolute, the apex when relative.
    pub fn root() -> (r: DName)
        ensures
            r@ == Seq::<Seq<u8>>::empty(),
    {
        let r = DName { labels: Vec::new() };
        assert(r@ =~= Seq::<Seq<u8>>::empty());
        r
    }

    pub fn from_labels(labels: Vec<Vec<u8>>) -> (r: DName)
        ensures
            r@ == labels@.map_values(|l: Vec<u8>| l@),
    {
        DName { labels }
    }

    pub fn len(&self) -> (r: usize)
        ensures
            r == self@.len(),
    {
        self.labels.len()
    }

    pub fn label(&self, i: usize) -> (r: &Vec<u8>)
        requires
            i < self@.len(),
        ensures
            r@ == self@[i as int],
    {
        &self.labels[i]
    }

    /// A copy of the name.
    pub fn copy(&self) -> (r: DName)
        ensures
            r@ == self@,
    {
        let empty = DName::root();
        let r = self.concat(&empty);
        assert(self@ + empty@ =~= self@);
        r
    }

    /// Whether the name's labels and length are within the limits of DNS.
    pub fn is_valid(&self) -> (r: bool)
        ensures
            r == valid_name(self@),
    {
        let mut total: usize = 1;
        let mut i: usize = 0;
        while i < self.labels.len()
            invariant
                i <= self@.len(),
                total == wire_len(self@.subrange(0, i as int)),
                total <= 255,
                forall|k: int| 0 <= k < i ==> 1 <= (#[trigger] self@[k]).len() <= 63,
            decreases self@.len() - i,
        {
            let len = self.labels[i].len();
            assert(self@[i as int] == self.labels@[i as int]@);
            assert(self@.subrange(0, i as int + 1).drop_last() =~= self@.subrange(0, i as int));
            if len < 1 || len > 63 {
                return false;
            }
            total = total + len + 1;
            i += 1;
            if total > 255 {
                proof { lemma_wire_len_grows(self@, i as int); }
                return false;
            }
        }
        assert(self@.subrange(0, self@.len() as int) =~= self@);
        true
    }

    /// Appends `base` to the right of this name.
    pub fn concat(&self, base: &DName) -> (r: DName)
        ensures
            r@ == self@ + base@,
    {
        let mut labels: Vec<Vec<u8>> = Vec::new();
        let mut i: usize = 0;
        while i < self.labels.len()
            invariant
                i <= self.labels@.len(),
                labels@.map_values(|l: Vec<u8>| l@) =~= self@.subrange(0, i as int),
            decreases self.labels@.len() - i,
        {
            let l = copy_bytes(&self.labels[i]);
            proof {
                let f = |l: Vec<u8>| l@;
                assert(labels@.push(l).map_values(f) =~= labels@.map_values(f).push(l@));
            }
            labels.push(l);
            i += 1;
        }
        let mut j: usize = 0;
        while j < base.labels.len()
            invariant
                j <= base.labels@.len(),
                labels@.map_values(|l: Vec<u8>| l@) =~= self@ + base@.subrange(0, j as int),
            decreases base.labels@.len() - j,
        {
            let l = copy_bytes(&base.labels[j]);
            proof {
                let f = |l: Vec<u8>| l@;
                assert(labels@.push(l).map_values(f) =~= labels@.map_values(f).push(l@));
            }
            labels.push(l);
            j += 1;
        }
        let r = DName { labels };
        assert(r@ =~= self@ + base@);
        r
    }

    /// The labelettes of the name, root-first, without the root.
    pub fn rev_labelettes(&self) -> (r: Vec<Labelette>)
        ensures
            keys_of(r@) == self.path(),
            r@.len() == self@.len(),
    {
        let mut r: Vec<Labelette> = Vec::new();
        let n = self.labels.len();
        let mut i: usize = 0;
        while i < n
            invariant
                n == self@.len(),
                i <= n,
                r@.len() == i,
                forall|k: int| 0 <= k < i ==> #[trigger] r@[k].key() == self.path()[k],
            decreases n - i,
        {
            r.push(Labelette::Normal(copy_bytes(&self.labels[n - 1 - i])));
            i += 1;
        }
        assert(keys_of(r@) =~= self.path());
        r
    }

    /// Whether `suffix` equals the rightmost labels of this name, ignoring
    /// ASCII case.
    pub open spec fn has_suffix(&self, suffix: &DName) -> bool {
        suffix@.len() <= self@.len()
        && forall|k: int| 0 <= k < suffix@.len() ==>
            fold(#[trigger] self@[self@.len() - suffix@.len() + k]) == fold(suffix@[k])
    }

    /// The labels left of `suffix`, if `suffix` is the rightmost part of the
    /// name; an error if it is not.
    pub fn strip_suffix(&self, suffix: &DName) -> (r: Result<DName, ()>)
        ensures
            r is Ok <==> self.has_suffix(suffix),
            r matches Ok(rel) ==> rel@ == self@.subrange(0, self@.len() - suffix@.len()),
    {
        let n = self.labels.len();
        let m = suffix.labels.len();
        if m > n {
            return Err(());
        }
        let mut k: usize = 0;
        while k < m
            invariant
                m <= n,
                n == self@.len(),
                m == suffix@.len(),
                k <= m,
                forall|j: int| 0 <= j < k ==>
                    fold(#[trigger] self@[n - m + j]) == fold(suffix@[j]),
            decreases m - k,
        {
            if !label_eq(&self.labels[n - m + k], &suffix.labels[k]) {
                assert(self@[n - m + k] == self.labels@[n - m + k]@);
                assert(suffix@[k as int] == suffix.labels@[k as int]@);
                assert(fold(self@[self@.len() - suffix@.len() + k]) != fold(suffix@[k as int]));
                return Err(());
            }
            k += 1;
        }
        let mut labels: Vec<Vec<u8>> = Vec::new();
        let mut i: usize = 0;
        while i < n - m
            invariant
                m <= n,
                n == self@.len(),
                i <= n - m,
                labels@.map_values(|l: Vec<u8>| l@) =~= self@.subrange(0, i as int),
            decreases n - m - i,
        {
            let l = copy_bytes(&self.labels[i]);
            proof {
                let f = |l: Vec<u8>| l@;
                assert(labels@.push(l).map_values(f) =~= labels@.map_values(f).push(l@));
            }
            labels.push(l);
            i += 1;
        }
        Ok(DName { labels })
    }
}

} // verus!
