use vstd::prelude::*;
use crate::errors::Error;

verus! {

// A domain name is kept as its dot-terminated text ("example.local.",
// root = "."). Its wire form is a run of length-prefixed labels closed by a
// zero octet, or cut short by a 2-byte compression pointer.

/// Index of the first dot in `s`, or `s.len()` if there is none.
pub open spec fn first_dot(s: Seq<u8>) -> int
    decreases s.len(),
{
    if s.len() == 0 {
        0
    } else if s[0] == 46 {
        0
    } else {
        1 + first_dot(s.subrange(1, s.len() as int))
    }
}

pub proof fn lemma_first_dot_char(s: Seq<u8>)
    ensures
        0 <= first_dot(s) <= s.len(),
        forall|k: int| 0 <= k < first_dot(s) ==> s[k] != 46,
        first_dot(s) < s.len() ==> s[first_dot(s)] == 46,
    decreases s.len(),
{
    if s.len() == 0 {
    } else if s[0] == 46 {
    } else {
        let t = s.subrange(1, s.len() as int);
        lemma_first_dot_char(t);
        assert forall|k: int| 0 <= k < first_dot(s) implies s[k] != 46 by {
            if k > 0 {
                assert(t[k - 1] != 46);
            }
        }
    }
}

pub proof fn lemma_first_dot_unique(s: Seq<u8>, j: int)
    requires
        0 <= j <= s.len(),
        forall|k: int| 0 <= k < j ==> s[k] != 46,
        j < s.len() ==> s[j] == 46,
    ensures
        first_dot(s) == j,
{
    lemma_first_dot_char(s);
    let fd = first_dot(s);
    if fd < j {
        assert(s[fd] != 46);
        assert(s[fd] == 46);
    } else if j < fd {
        assert(s[j] != 46);
        assert(s[j] == 46);
    }
}

/// Every label is non-empty and the text ends with a dot.
pub open spec fn canonical_labels(s: Seq<u8>) -> bool
    decreases s.len(),
{
    if s.len() == 0 {
        true
    } else {
        let j = first_dot(s);
        1 <= j && j < s.len() && canonical_labels(s.subrange(j + 1, s.len() as int))
    }
}

/// Every label fits the 6-bit wire length prefix.
pub open spec fn labels_le_63(s: Seq<u8>) -> bool
    decreases s.len(),
{
    if s.len() == 0 {
        true
    } else {
        let j = first_dot(s);
        if 0 <= j && j < s.len() {
            j <= 63 && labels_le_63(s.subrange(j + 1, s.len() as int))
        } else {
            true
        }
    }
}

/// A well-formed run of labels: non-empty, dot-terminated, each at most 63.
pub open spec fn valid_labels(s: Seq<u8>) -> bool {
    canonical_labels(s) && labels_le_63(s)
}

/// A name text the packer accepts: the root ".", or a dot-terminated label
/// run whose wire form (text length + 1) stays within 255 octets.
pub open spec fn valid_name_text(s: Seq<u8>) -> bool {
    if s.len() == 1 {
        s[0] == 46
    } else {
        2 <= s.len() <= 254 && valid_labels(s)
    }
}

/// The uncompressed wire form of a dot-terminated name text.
pub open spec fn name_wire(s: Seq<u8>) -> Seq<u8>
    decreases s.len(),
{
    if s.len() <= 1 {
        seq![0u8]
    } else {
        let j = first_dot(s);
        if 0 <= j && j + 1 <= s.len() {
            seq![j as u8] + s.subrange(0, j) + name_wire(s.subrange(j + 1, s.len() as int))
        } else {
            seq![0u8]
        }
    }
}

pub proof fn lemma_name_wire_len(s: Seq<u8>)
    requires
        canonical_labels(s),
    ensures
        name_wire(s).len() == s.len() + 1,
    decreases s.len(),
{
    if s.len() == 0 {
    } else {
        let j = first_dot(s);
        lemma_first_dot_char(s);
        if s.len() == 1 {
            // canonical with len 1 forces j == 0 or j == 1, both refuted
            assert(false);
        } else {
            lemma_name_wire_len(s.subrange(j + 1, s.len() as int));
        }
    }
}

/// Parses a pointerless run of labels at `off`: the label text (each label
/// followed by a dot) and the offset just past the closing zero octet.
/// `None` where the bytes are truncated, hold a pointer, or use reserved
/// length bits.
pub open spec fn parse_labels(msg: Seq<u8>, off: int) -> Option<(Seq<u8>, int)>
    decreases msg.len() - off,
{
    if !(0 <= off < msg.len()) {
        None
    } else {
        let c = msg[off] as int;
        if c == 0 {
            Some((Seq::empty(), off + 1))
        } else if c <= 63 {
            if off + 1 + c <= msg.len() {
                match parse_labels(msg, off + 1 + c) {
                    Some(rest) => Some(
                        (msg.subrange(off + 1, off + 1 + c) + seq![46u8] + rest.0, rest.1),
                    ),
                    None => None,
                }
            } else {
                None
            }
        } else {
            None
        }
    }
}

/// Parses one whole pointerless name: as `parse_labels`, with the empty
/// label run read back as the root name ".".
pub open spec fn parse_plain(msg: Seq<u8>, off: int) -> Option<(Seq<u8>, int)> {
    match parse_labels(msg, off) {
        Some(r) => if r.0.len() == 0 {
            Some((seq![46u8], r.1))
        } else {
            Some(r)
        },
        None => None,
    }
}

/// Where one name's own bytes end, pointers included: labels are walked,
/// a zero octet closes the name, and a compression pointer (which must aim
/// strictly before its own position) closes it after its two bytes.
/// `None` on truncated bytes, reserved length bits, or a pointer that
/// does not aim strictly backwards.
pub open spec fn skip_name(msg: Seq<u8>, off: int) -> Option<int>
    decreases msg.len() - off,
{
    if !(0 <= off < msg.len()) {
        None
    } else {
        let c = msg[off] as int;
        if c == 0 {
            Some(off + 1)
        } else if c <= 63 {
            if off + 1 + c <= msg.len() {
                skip_name(msg, off + 1 + c)
            } else {
                None
            }
        } else if msg[off] & 0xC0 == 0xC0 {
            if off + 1 < msg.len() && ptr_target(msg[off], msg[off + 1]) < off {
                Some(off + 2)
            } else {
                None
            }
        } else {
            None
        }
    }
}

/// The wire form of a well-formed label run parses back to the same text,
/// wherever it sits inside a larger message.
pub proof fn lemma_parse_of_wire(msg: Seq<u8>, off: int, s: Seq<u8>)
    requires
        valid_labels(s),
        0 <= off,
        off + s.len() + 1 <= msg.len(),
        msg.subrange(off, off + s.len() + 1) == name_wire(s),
    ensures
        parse_labels(msg, off) == Some((s, off + s.len() + 1)),
    decreases s.len(),
{
    lemma_name_wire_len(s);
    let w = name_wire(s);
    if s.len() == 0 {
        assert(msg[off] == w[0]);
        assert(parse_labels(msg, off) == Some((Seq::<u8>::empty(), off + 1)));
        assert(Some((Seq::<u8>::empty(), off + 1)) == Some((s, off + s.len() + 1)));
    } else {
        let j = first_dot(s);
        lemma_first_dot_char(s);
        assert(s.len() >= 2);
        let rest = s.subrange(j + 1, s.len() as int);
        lemma_name_wire_len(rest);
        assert(w == seq![j as u8] + s.subrange(0, j) + name_wire(rest));
        assert(msg[off] == w[0]);
        assert(w[0] == j as u8);
        assert(1 <= j <= 63);
        let c = msg[off] as int;
        assert(c == j);
        assert(off + 1 + c <= msg.len());
        // the label bytes match
        assert(msg.subrange(off + 1, off + 1 + j) =~= s.subrange(0, j)) by {
            assert forall|k: int| 0 <= k < j implies msg[off + 1 + k] == s[k] by {
                assert(msg[off + 1 + k] == msg.subrange(off, off + s.len() + 1)[1 + k]);
                assert(w[1 + k] == s.subrange(0, j)[k]);
            }
        }
        // the remainder of the wire form sits right after the label
        assert(msg.subrange(off + 1 + j, off + 1 + j + rest.len() + 1) =~= name_wire(rest)) by {
            assert forall|k: int| 0 <= k < rest.len() + 1 implies msg[off + 1 + j + k]
                == name_wire(rest)[k] by {
                assert(msg[off + 1 + j + k] == msg.subrange(off, off + s.len() + 1)[1 + j + k]);
                assert(w[1 + j + k] == name_wire(rest)[k]);
            }
        }
        lemma_parse_of_wire(msg, off + 1 + j, rest);
        assert(parse_labels(msg, off + 1 + j) == Some((rest, off + 1 + j + rest.len() + 1)));
        assert(off + 1 + j + rest.len() + 1 == off + s.len() + 1);
        assert(msg.subrange(off + 1, off + 1 + j) + seq![46u8] + rest =~= s) by {
            assert(s[j] == 46);
        }
    }
}

/// Round-trip at the level of the wire model: the uncompressed wire form of
/// a valid name text parses back to that very text, with the cursor left
/// just past it.
pub proof fn lemma_name_roundtrip(msg: Seq<u8>, off: int, s: Seq<u8>)
    requires
        valid_name_text(s),
        0 <= off,
        s.len() == 1 ==> off + 1 <= msg.len() && msg.subrange(off, off + 1) == name_wire(s),
        s.len() != 1 ==> off + s.len() + 1 <= msg.len() && msg.subrange(off, off + s.len() + 1)
            == name_wire(s),
    ensures
        s.len() == 1 ==> parse_plain(msg, off) == Some((s, off + 1)),
        s.len() != 1 ==> parse_plain(msg, off) == Some((s, off + s.len() + 1)),
{
    if s.len() == 1 {
        // root name: wire is the single zero octet
        assert(name_wire(s) == seq![0u8]);
        assert(msg[off] == msg.subrange(off, off + 1)[0]);
        assert(msg[off] == 0);
        assert(parse_labels(msg, off) == Some((Seq::<u8>::empty(), off + 1)));
        assert(parse_plain(msg, off) == Some((seq![46u8], off + 1)));
        assert(s =~= seq![46u8]);
    } else {
        lemma_parse_of_wire(msg, off, s);
    }
}

/// `Some((p + text, end))` for `Some((text, end))`; `None` stays `None`.
pub open spec fn prepend_text(p: Seq<u8>, o: Option<(Seq<u8>, int)>) -> Option<(Seq<u8>, int)> {
    match o {
        Some(r) => Some((p + r.0, r.1)),
        None => None,
    }
}

/// The 14-bit offset carried by a compression pointer's two bytes.
pub open spec fn ptr_target(hi: u8, lo: u8) -> int {
    ((hi & 0x3f) as int) * 256 + lo as int
}

/// Compares two byte vectors for equality.
pub fn vec_u8_eq(a: &Vec<u8>, b: &Vec<u8>) -> (r: bool)
    ensures
        r == (a@ == b@),
{
    if a.len() != b.len() {
        return false;
    }
    for i in 0..a.len()
        invariant
            a@.len() == b@.len(),
            forall|k: int| 0 <= k < i ==> a@[k] == b@[k],
    {
        if a[i] != b[i] {
            return false;
        }
    }
    proof {
        assert(a@ =~= b@);
    }
    true
}

/// Whether `key` equals the byte suffix `data[begin..]`.
fn suffix_eq(key: &Vec<u8>, data: &Vec<u8>, begin: usize) -> (r: bool)
    requires
        begin <= data@.len(),
    ensures
        r == (key@ == data@.subrange(begin as int, data@.len() as int)),
{
    let ghost suffix = data@.subrange(begin as int, data@.len() as int);
    let m = key.len();
    let dn = data.len();
    if m != dn - begin {
        return false;
    }
    let mut k: usize = 0;
    while k < m
        invariant
            0 <= k <= m,
            m == key@.len(),
            dn == data@.len(),
            begin + m == dn,
            suffix == data@.subrange(begin as int, data@.len() as int),
            forall|t: int| 0 <= t < k ==> key@[t] == data@[begin + t],
        decreases m - k,
    {
        if key[k] != data[begin + k] {
            proof {
                assert(suffix[k as int] == data@[begin + k]);
            }
            return false;
        }
        k += 1;
    }
    proof {
        assert(key@ =~= suffix);
    }
    true
}

/// First entry whose key equals `key`, front to back.
pub open spec fn spec_find(entries: Seq<(Seq<u8>, u16)>, key: Seq<u8>) -> Option<u16>
    decreases entries.len(),
{
    if entries.len() == 0 {
        None
    } else if entries[0].0 == key {
        Some(entries[0].1)
    } else {
        spec_find(entries.drop_first(), key)
    }
}

/// Every key in a compression table is longer than `l`.
pub open spec fn keys_longer_than(t: Seq<(Seq<u8>, u16)>, l: int) -> bool {
    forall|j: int| 0 <= j < t.len() ==> (#[trigger] t[j]).0.len() > l
}

/// `t1` extends `t0` at the back, and every added entry records a suffix
/// of the name text `s` at an offset that fits the 14-bit pointer field.
pub open spec fn table_extended_with_suffixes(
    t0: Seq<(Seq<u8>, u16)>,
    t1: Seq<(Seq<u8>, u16)>,
    s: Seq<u8>,
) -> bool {
    &&& t0.len() <= t1.len()
    &&& t1.subrange(0, t0.len() as int) == t0
    &&& (forall|j: int|
        t0.len() <= j < t1.len() ==> (#[trigger] t1[j]).1 <= 0x3FFF && (exists|b: int|
            0 <= b < s.len() && t1[j].0 == s.subrange(b, s.len() as int)))
}

/// No key of length above the probe's length can match it.
pub proof fn lemma_find_none_when_longer(t: Seq<(Seq<u8>, u16)>, key: Seq<u8>)
    requires
        keys_longer_than(t, key.len() as int),
    ensures
        spec_find(t, key) is None,
    decreases t.len(),
{
    if t.len() > 0 {
        assert(t[0].0.len() > key.len());
        assert(keys_longer_than(t.drop_first(), key.len() as int)) by {
            assert forall|j: int| 0 <= j < t.drop_first().len() implies (#[trigger] t.drop_first()[j]).0.len()
                > key.len() by {
                assert(t.drop_first()[j] == t[j + 1]);
            }
        }
        lemma_find_none_when_longer(t.drop_first(), key);
    }
}

/// The compression table of one pack call: each suffix already emitted,
/// keyed by its dot-terminated text, mapped to the offset (from the start of
/// the message) where it was first written.
pub struct CompressionMap {
    entries: Vec<(Vec<u8>, u16)>,
}

impl View for CompressionMap {
    type V = Seq<(Seq<u8>, u16)>;

    closed spec fn view(&self) -> Seq<(Seq<u8>, u16)> {
        self.entries@.map_values(|e: (Vec<u8>, u16)| (e.0@, e.1))
    }
}

impl CompressionMap {
    pub fn new() -> (r: CompressionMap)
        ensures
            r@ == Seq::<(Seq<u8>, u16)>::empty(),
    {
        let r = CompressionMap { entries: Vec::new() };
        proof {
            assert(r@ =~= Seq::<(Seq<u8>, u16)>::empty());
        }
        r
    }

    /// The offset recorded for the suffix `data[begin..]`, if any.
    pub fn find(&self, data: &Vec<u8>, begin: usize) -> (r: Option<u16>)
        requires
            begin <= data@.len(),
        ensures
            r == spec_find(self@, data@.subrange(begin as int, data@.len() as int)),
    {
        let ghost key = data@.subrange(begin as int, data@.len() as int);
        let n = self.entries.len();
        proof {
            assert(self@.subrange(0, n as int) =~= self@);
        }
        for i in 0..n
            invariant
                n == self@.len(),
                n == self.entries@.len(),
                begin <= data@.len(),
                key == data@.subrange(begin as int, data@.len() as int),
                spec_find(self@, key) == spec_find(self@.subrange(i as int, n as int), key),
        {
            let e = &self.entries[i];
            let hit = suffix_eq(&e.0, data, begin);
            proof {
                let tail = self@.subrange(i as int, n as int);
                assert(tail[0] == (e.0@, e.1));
                assert(tail.drop_first() =~= self@.subrange(i + 1, n as int));
            }
            if hit {
                return Some(e.1);
            }
        }
        proof {
            assert(self@.subrange(n as int, n as int).len() == 0);
        }
        None
    }

    /// Records a suffix at its offset.
    pub fn insert(&mut self, key: Vec<u8>, off: u16)
        ensures
            final(self)@ == old(self)@.push((key@, off)),
    {
        let ghost before = self@;
        self.entries.push((key, off));
        proof {
            assert(self@ =~= before.push((key@, off)));
        }
    }
}

/// A domain name, held as its dot-terminated text.
#[derive(Debug)]
pub struct Name {
    pub data: Vec<u8>,
}

impl View for Name {
    type V = Seq<u8>;

    open spec fn view(&self) -> Seq<u8> {
        self.data@
    }
}

impl PartialEq for Name {
    fn eq(&self, other: &Name) -> (r: bool) {
        vec_u8_eq(&self.data, &other.data)
    }
}

impl vstd::std_specs::cmp::PartialEqSpecImpl for Name {
    open spec fn obeys_eq_spec() -> bool {
        true
    }

    open spec fn eq_spec(&self, other: &Name) -> bool {
        self@ == other@
    }
}

impl Name {
    /// Wraps a dot-terminated text; validity is checked when packing.
    pub fn new(data: Vec<u8>) -> (r: Name)
        ensures
            r@ == data@,
    {
        Name { data }
    }

    /// The root name ".".
    pub fn root() -> (r: Name)
        ensures
            r@ == seq![46u8],
    {
        let mut data: Vec<u8> = Vec::new();
        data.push(46);
        proof {
            assert(data@ =~= seq![46u8]);
        }
        Name { data }
    }

    /// A copy holding the same text.
    pub fn duplicate(&self) -> (r: Name)
        ensures
            r@ == self@,
    {
        let mut data: Vec<u8> = Vec::new();
        for i in 0..self.data.len()
            invariant
                data@ == self.data@.subrange(0, i as int),
        {
            data.push(self.data[i]);
            proof {
                assert(data@ =~= self.data@.subrange(0, i + 1 as int));
            }
        }
        proof {
            assert(data@ =~= self.data@);
        }
        Name { data }
    }

    /// Whether the text is a name the packer accepts.
    pub fn is_valid(&self) -> (r: bool)
        ensures
            r == valid_name_text(self@),
    {
        let n = self.data.len();
        if n == 1 {
            return self.data[0] == 46;
        }
        if n < 2 || n > 254 {
            return false;
        }
        let (canon, le63) = Self::check_labels(&self.data, 0);
        proof {
            assert(self.data@.subrange(0, n as int) =~= self.data@);
        }
        canon && le63
    }

    /// Checks shape (non-empty labels, trailing dot) and label lengths of
    /// the label run starting at `begin`.
    fn check_labels(data: &Vec<u8>, begin: usize) -> (r: (bool, bool))
        requires
            begin <= data@.len(),
        ensures
            r.0 == canonical_labels(data@.subrange(begin as int, data@.len() as int)),
            r.1 == labels_le_63(data@.subrange(begin as int, data@.len() as int)),
        decreases data@.len() - begin,
    {
        let n = data.len();
        let ghost s = data@.subrange(begin as int, n as int);
        if begin == n {
            return (true, true);
        }
        let mut j = begin;
        while j < n && data[j] != 46
            invariant
                begin <= j <= n,
                n == data@.len(),
                forall|k: int| begin <= k < j ==> data@[k] != 46,
            decreases n - j,
        {
            j += 1;
        }
        proof {
            assert forall|k: int| 0 <= k < j - begin implies s[k] != 46 by {
                assert(s[k] == data@[begin + k]);
            }
            if j < n {
                assert(s[j - begin] == data@[j as int]);
            }
            lemma_first_dot_unique(s, j - begin);
        }
        if j == n {
            return (false, true);
        }
        let lab = j - begin;
        let rest = Self::check_labels(data, j + 1);
        proof {
            assert(s.subrange(lab + 1, s.len() as int) =~= data@.subrange(j + 1, n as int));
        }
        (lab >= 1 && rest.0, lab <= 63 && rest.1)
    }

    /// Emits the label run starting at `begin`, consulting and feeding the
    /// compression table. Every entry the call adds records a suffix of
    /// the name at an offset that fits 14 bits. With compression off — or
    /// with a table whose keys are all longer than this run, so no lookup
    /// can hit — the output is exactly the uncompressed wire form
    /// appended to `msg`.
    fn pack_labels(
        data: &Vec<u8>,
        begin: usize,
        msg: Vec<u8>,
        compression: &mut Option<CompressionMap>,
        compression_off: usize,
    ) -> (r: Vec<u8>)
        requires
            begin <= data@.len(),
            valid_labels(data@.subrange(begin as int, data@.len() as int)),
        ensures
            r@.subrange(0, msg@.len() as int) == msg@,
            msg@.len() < r@.len() <= msg@.len() + (data@.len() - begin) + 1,
            *old(compression) is None ==> *final(compression) is None && r@ == msg@ + name_wire(
                data@.subrange(begin as int, data@.len() as int),
            ),
            (*old(compression) matches Some(t0) ==> (*final(compression) matches Some(t1)
                && table_extended_with_suffixes(t0@, t1@, data@) && (keys_longer_than(
                t0@,
                data@.len() - begin,
            ) ==> r@ == msg@ + name_wire(data@.subrange(begin as int, data@.len() as int))))),
        decreases data@.len() - begin,
    {
        let n = data.len();
        let ghost s = data@.subrange(begin as int, n as int);
        let mut m = msg;
        let ghost m0 = m@;
        if begin == n {
            m.push(0);
            proof {
                assert(name_wire(s) == seq![0u8]);
                assert(m@ =~= m0 + name_wire(s));
                assert(m@.subrange(0, m0.len() as int) =~= m0);
                match &*compression {
                    Some(t) => {
                        assert(t@.subrange(0, t@.len() as int) =~= t@);
                    },
                    None => {},
                }
            }
            return m;
        }
        // find the end of the first label
        let mut j = begin;
        while j < n && data[j] != 46
            invariant
                begin <= j <= n,
                n == data@.len(),
                forall|k: int| begin <= k < j ==> data@[k] != 46,
            decreases n - j,
        {
            j += 1;
        }
        proof {
            assert forall|k: int| 0 <= k < j - begin implies s[k] != 46 by {
                assert(s[k] == data@[begin + k]);
            }
            if j < n {
                assert(s[j - begin] == data@[j as int]);
            }
            lemma_first_dot_unique(s, j - begin);
            lemma_first_dot_char(s);
        }
        // valid_labels pins the first label: 1..=63 long and dot-terminated
        assert(1 <= j - begin && j - begin <= 63 && j < n);
        match compression {
            Some(table) => {
                if let Some(p) = table.find(data, begin) {
                    proof {
                        assert(p >> 8 <= 0xff) by (bit_vector);
                        match *old(compression) {
                            Some(t0) => {
                                if keys_longer_than(t0@, data@.len() - begin) {
                                    // every key is longer than this
                                    // suffix, so the lookup cannot hit
                                    lemma_find_none_when_longer(t0@, s);
                                    assert(false);
                                }
                                assert(t0@.subrange(0, t0@.len() as int) =~= t0@);
                            },
                            None => {},
                        }
                    }
                    m.push(0xC0u8 | ((p >> 8) as u8 & 0x3Fu8));
                    m.push((p & 0xff) as u8);
                    proof {
                        assert(m@.subrange(0, m0.len() as int) =~= m0);
                    }
                    return m;
                }
                if m.len() >= compression_off && m.len() - compression_off <= 0x3FFF {
                    let mut key: Vec<u8> = Vec::new();
                    let mut i = begin;
                    while i < n
                        invariant
                            begin <= i <= n,
                            n == data@.len(),
                            key@ == data@.subrange(begin as int, i as int),
                        decreases n - i,
                    {
                        key.push(data[i]);
                        proof {
                            assert(key@ =~= data@.subrange(begin as int, i + 1 as int));
                        }
                        i += 1;
                    }
                    table.insert(key, (m.len() - compression_off) as u16);
                }
            },
            None => {},
        }
        let ghost comp_mid = *compression;
        // emit the label, length-prefixed
        m.push((j - begin) as u8);
        let mut i = begin;
        while i < j
            invariant
                begin <= i <= j <= n,
                n == data@.len(),
                m@ == m0 + seq![(j - begin) as u8] + data@.subrange(begin as int, i as int),
            decreases j - i,
        {
            m.push(data[i]);
            proof {
                assert(m@ =~= m0 + seq![(j - begin) as u8] + data@.subrange(
                    begin as int,
                    i + 1 as int,
                ));
            }
            i += 1;
        }
        let ghost m1 = m@;
        let ghost rest = data@.subrange(j + 1, n as int);
        proof {
            assert(s.subrange(j - begin + 1, s.len() as int) =~= rest);
            match *old(compression) {
                Some(t0) => {
                    match comp_mid {
                        Some(tm) => {
                            // the table grew by at most the one suffix key
                            assert(tm@ == t0@ || tm@ == t0@.push(
                                (data@.subrange(begin as int, n as int), tm@.last().1),
                            ));
                            if keys_longer_than(t0@, data@.len() - begin) {
                                assert(keys_longer_than(tm@, data@.len() - (j + 1))) by {
                                    assert forall|idx: int| 0 <= idx < tm@.len() implies (
                                    #[trigger] tm@[idx]).0.len() > data@.len() - (j + 1) by {
                                        if idx < t0@.len() {
                                            assert(tm@[idx] == t0@[idx]);
                                        } else {
                                            assert(tm@[idx].0 == data@.subrange(
                                                begin as int,
                                                n as int,
                                            ));
                                        }
                                    }
                                }
                            }
                        },
                        None => {
                            assert(false);
                        },
                    }
                },
                None => {},
            }
        }
        let r = Self::pack_labels(data, j + 1, m, compression, compression_off);
        proof {
            assert(r@.subrange(0, m0.len() as int) =~= m0) by {
                assert(forall|k: int|
                    0 <= k < m0.len() ==> r@[k] == r@.subrange(0, m1.len() as int)[k]);
            }
            let ghost exact0 = match *old(compression) {
                None => true,
                Some(t0) => keys_longer_than(t0@, data@.len() - begin),
            };
            if exact0 {
                assert(name_wire(s) == seq![(j - begin) as u8] + s.subrange(0, j - begin)
                    + name_wire(rest));
                assert(s.subrange(0, j - begin) =~= data@.subrange(begin as int, j as int));
                assert(r@ =~= m0 + name_wire(s));
            }
            match *old(compression) {
                Some(t0) => {
                    match comp_mid {
                        Some(tm) => {
                            match &*compression {
                                Some(t1) => {
                                    // prefix of the original table is kept
                                    assert(t1@.subrange(0, t0@.len() as int) =~= t0@) by {
                                        assert forall|k: int| 0 <= k < t0@.len() implies t1@[k]
                                            == t0@[k] by {
                                            assert(t1@.subrange(0, tm@.len() as int)[k] == t1@[k]);
                                            assert(tm@[k] == t0@[k]);
                                        }
                                    }
                                    // every added entry records a suffix
                                    assert forall|jj: int|
                                        t0@.len() <= jj < t1@.len() implies (#[trigger] t1@[
                                    jj]).1 <= 0x3FFF && (exists|b: int|
                                        0 <= b < data@.len() && t1@[jj].0 == data@.subrange(
                                            b,
                                            data@.len() as int,
                                        )) by {
                                        if jj < tm@.len() {
                                            assert(t1@.subrange(0, tm@.len() as int)[jj]
                                                == t1@[jj]);
                                            assert(t1@[jj] == tm@[jj]);
                                            assert(tm@[jj].0 == data@.subrange(
                                                begin as int,
                                                n as int,
                                            ));
                                            assert(0 <= begin < data@.len() && t1@[jj].0
                                                == data@.subrange(
                                                begin as int,
                                                data@.len() as int,
                                            ));
                                        }
                                    }
                                },
                                None => {
                                    assert(false);
                                },
                            }
                        },
                        None => {
                            assert(false);
                        },
                    }
                },
                None => {},
            }
        }
        r
    }

    /// Appends the wire form of this name. A suffix already in the
    /// compression table is replaced by a 2-byte pointer to its first
    /// occurrence; newly written suffixes at offsets that fit 14 bits are
    /// recorded. With `compression` `None` the output is exactly
    /// `name_wire` of the text.
    pub fn pack(
        &self,
        msg: Vec<u8>,
        compression: &mut Option<CompressionMap>,
        compression_off: usize,
    ) -> (r: Result<Vec<u8>, Error>)
        ensures
            (r matches Ok(out) ==> valid_name_text(self@) && out@.subrange(0, msg@.len() as int)
                == msg@ && msg@.len() < out@.len() <= msg@.len() + self@.len() + 1 && (
            *old(compression) is None ==> *final(compression) is None && out@ == msg@ + name_wire(
                self@,
            ))),
            (r matches Ok(out) ==> (*old(compression) matches Some(t0)
                ==> (*final(compression) matches Some(t1) && table_extended_with_suffixes(
                t0@,
                t1@,
                self@,
            ) && (
            keys_longer_than(t0@, self@.len() as int) ==> out@ == msg@ + name_wire(self@))))),
            r is Err ==> *final(compression) == *old(compression),
            valid_name_text(self@) ==> r is Ok,
            (r matches Err(e) ==> !valid_name_text(self@) && (e == Error::NameTooLong || e
                == Error::NameNotCanonical) && (e == Error::NameTooLong <==> self@.len() >= 2
                && canonical_labels(self@) && !(self@.len() <= 254 && labels_le_63(self@)))),
    {
        let n = self.data.len();
        if n == 1 {
            if self.data[0] == 46 {
                let mut m = msg;
                let ghost m0 = m@;
                m.push(0);
                proof {
                    assert(name_wire(self@) == seq![0u8]);
                    assert(m@ =~= m0 + name_wire(self@));
                    assert(m@.subrange(0, m0.len() as int) =~= m0);
                    match &*compression {
                        Some(t) => {
                            assert(t@.subrange(0, t@.len() as int) =~= t@);
                        },
                        None => {},
                    }
                }
                return Ok(m);
            }
            return Err(Error::NameNotCanonical);
        }
        if n == 0 {
            return Err(Error::NameNotCanonical);
        }
        let (canon, le63) = Self::check_labels(&self.data, 0);
        proof {
            assert(self.data@.subrange(0, n as int) =~= self.data@);
        }
        if !canon {
            return Err(Error::NameNotCanonical);
        }
        if n > 254 || !le63 {
            return Err(Error::NameTooLong);
        }
        Ok(Self::pack_labels(&self.data, 0, msg, compression, compression_off))
    }

    /// Reads one name at `off`, following compression pointers. Every
    /// pointer must aim strictly before its own position, and each further
    /// pointer strictly before the previous target, so the walk always
    /// terminates. The returned offset is the one just past the name's own
    /// bytes: past the first pointer if there was one, else past the
    /// closing zero octet. On a pointerless well-formed name this agrees
    /// exactly with `parse_plain`.
    pub fn unpack(msg: &[u8], off: usize) -> (r: Result<(Name, usize), Error>)
        ensures
            (parse_plain(msg@, off as int) matches Some(p) ==> (p.0.len() <= 254 ==> (r matches Ok(
                q,
            ) && q.0@ == p.0 && q.1 == p.1))),
            (r matches Ok(q) ==> off < q.1 <= msg@.len() && 1 <= q.0@.len() <= 254),
            off < msg@.len() && msg@[off as int] & 0xC0 == 0xC0 && off + 1 >= msg@.len() ==> r
                == Err::<(Name, usize), Error>(Error::InvalidPointer),
            off + 1 < msg@.len() && msg@[off as int] & 0xC0 == 0xC0 && ptr_target(
                msg@[off as int],
                msg@[off + 1],
            ) >= off ==> r == Err::<(Name, usize), Error>(Error::InvalidPointer),
    {
        let n = msg.len();
        // reject up front a first pointer that does not aim strictly backwards
        if off < n && msg[off] & 0xC0 == 0xC0 {
            proof {
                let c0 = msg@[off as int];
                assert(c0 & 0xC0 == 0xC0 ==> c0 > 63) by (bit_vector);
            }
            if off + 1 >= n {
                return Err(Error::InvalidPointer);
            }
            let t0 = ((msg[off] & 0x3F) as usize) * 256 + msg[off + 1] as usize;
            if t0 >= off {
                return Err(Error::InvalidPointer);
            }
        }
        if off >= n {
            return Err(Error::BufferTooSmall);
        }
        let mut curr: usize = off;
        let mut limit: usize = n;
        let mut name_data: Vec<u8> = Vec::new();
        let mut first_ptr: Option<usize> = None;
        proof {
            assert(prepend_text(name_data@, parse_labels(msg@, off as int)) == parse_labels(
                msg@,
                off as int,
            )) by {
                match parse_labels(msg@, off as int) {
                    Some(p) => {
                        assert(name_data@ + p.0 =~= p.0);
                    },
                    None => {},
                }
            }
        }
        loop
            invariant
                n == msg@.len(),
                off <= n,
                curr <= n,
                limit <= n,
                name_data@.len() <= 254,
                off < n && msg@[off as int] & 0xC0 == 0xC0 ==> off + 1 < n && ptr_target(
                    msg@[off as int],
                    msg@[off + 1],
                ) < off,
                first_ptr is None ==> off <= curr && parse_labels(msg@, off as int) == prepend_text(
                    name_data@,
                    parse_labels(msg@, curr as int),
                ),
                (first_ptr matches Some(p) ==> off < p <= n && parse_labels(
                    msg@,
                    off as int,
                ) is None),
            decreases limit, n - curr,
        {
            if curr >= n {
                return Err(Error::BufferTooSmall);
            }
            let c = msg[curr];
            if c & 0xC0 == 0 {
                if c == 0 {
                    // end of the name
                    let new_off = match first_ptr {
                        Some(p) => p,
                        None => curr + 1,
                    };
                    proof {
                        assert(parse_labels(msg@, curr as int) == Some(
                            (Seq::<u8>::empty(), curr + 1 as int),
                        ));
                        if first_ptr is None {
                            assert(name_data@ + Seq::<u8>::empty() =~= name_data@);
                        }
                    }
                    if name_data.len() == 0 {
                        name_data.push(46);
                        proof {
                            assert(name_data@ =~= seq![46u8]);
                        }
                    }
                    return Ok((Name { data: name_data }, new_off));
                }
                proof {
                    assert(c & 0xC0 == 0 ==> c <= 63) by (bit_vector);
                }
                let c_us = c as usize;
                if c_us + 1 > n - curr {
                    return Err(Error::BufferTooSmall);
                }
                if name_data.len() + c_us + 1 > 254 {
                    // even a successful plain parse would be over the text cap
                    proof {
                        if first_ptr is None {
                            match parse_labels(msg@, curr as int) {
                                Some(p) => {
                                    assert(p.0.len() >= c_us + 1);
                                },
                                None => {},
                            }
                        }
                    }
                    return Err(Error::NameTooLong);
                }
                let ghost base = name_data@;
                let mut i: usize = 0;
                while i < c_us
                    invariant
                        curr + 1 + c_us <= n,
                        n == msg@.len(),
                        i <= c_us,
                        name_data@ == base + msg@.subrange(curr + 1, curr + 1 + i),
                    decreases c_us - i,
                {
                    name_data.push(msg[curr + 1 + i]);
                    proof {
                        assert(name_data@ =~= base + msg@.subrange(curr + 1, curr + 1 + i + 1));
                    }
                    i += 1;
                }
                name_data.push(46);
                proof {
                    if first_ptr is None {
                        let lab = msg@.subrange(curr + 1, curr + 1 + c_us);
                        assert(name_data@ =~= base + lab + seq![46u8]);
                        match parse_labels(msg@, curr + 1 + c_us) {
                            Some(p) => {
                                assert(parse_labels(msg@, curr as int) == Some(
                                    (lab + seq![46u8] + p.0, p.1),
                                ));
                                assert(base + (lab + seq![46u8] + p.0) =~= (base + lab
                                    + seq![46u8]) + p.0);
                            },
                            None => {},
                        }
                    }
                }
                curr = curr + 1 + c_us;
            } else if c & 0xC0 == 0xC0 {
                proof {
                    // a pointer byte is never a label byte, so the plain
                    // parse fails here and stays failed
                    assert(c & 0xC0 == 0xC0 ==> c > 63) by (bit_vector);
                }
                if curr + 1 >= n {
                    return Err(Error::InvalidPointer);
                }
                let target = ((c & 0x3F) as usize) * 256 + msg[curr + 1] as usize;
                if first_ptr.is_none() {
                    first_ptr = Some(curr + 2);
                }
                if target >= curr || target >= limit {
                    return Err(Error::InvalidPointer);
                }
                limit = target;
                curr = target;
            } else {
                proof {
                    assert((c & 0xC0 != 0 && c & 0xC0 != 0xC0) ==> c > 63) by (bit_vector);
                }
                return Err(Error::InvalidPointer);
            }
        }
    }

    /// Advances past one name without materialising it. A compression
    /// pointer ends the name after its two bytes; as when unpacking, the
    /// pointer must aim strictly before its own position, though it is
    /// not followed. On a pointerless well-formed name the result agrees
    /// with `parse_plain`.
    pub fn skip(msg: &[u8], off: usize) -> (r: Result<usize, Error>)
        ensures
            (parse_plain(msg@, off as int) matches Some(p) ==> r == Ok::<usize, Error>(
                p.1 as usize,
            ) && (r matches Ok(e) && e == p.1)),
            (skip_name(msg@, off as int) matches Some(e1) ==> (r matches Ok(e) && e == e1)),
            skip_name(msg@, off as int) is None ==> r is Err,
            (r matches Ok(e) ==> off < e <= msg@.len()),
            off < msg@.len() && msg@[off as int] & 0xC0 == 0xC0 && off + 1 >= msg@.len() ==> r
                == Err::<usize, Error>(Error::InvalidPointer),
            off + 1 < msg@.len() && msg@[off as int] & 0xC0 == 0xC0 && ptr_target(
                msg@[off as int],
                msg@[off + 1],
            ) >= off ==> r == Err::<usize, Error>(Error::InvalidPointer),
    {
        let n = msg.len();
        // a name that begins with a pointer is those two bytes, aimed
        // strictly backwards
        if off < n && msg[off] & 0xC0 == 0xC0 {
            proof {
                let c0 = msg@[off as int];
                assert(c0 & 0xC0 == 0xC0 ==> c0 > 63) by (bit_vector);
            }
            if off + 1 >= n {
                return Err(Error::InvalidPointer);
            }
            let t0 = ((msg[off] & 0x3F) as usize) * 256 + msg[off + 1] as usize;
            if t0 >= off {
                return Err(Error::InvalidPointer);
            }
            return Ok(off + 2);
        }
        let mut curr: usize = off;
        loop
            invariant
                n == msg@.len(),
                off <= curr,
                curr <= n || curr == off,
                !(off < n && msg@[off as int] & 0xC0 == 0xC0),
                skip_name(msg@, off as int) == skip_name(msg@, curr as int),
                (parse_labels(msg@, curr as int) matches Some(p) ==> (parse_labels(
                    msg@,
                    off as int,
                ) matches Some(q) && q.1 == p.1)),
                parse_labels(msg@, curr as int) is None ==> parse_labels(msg@, off as int) is None,
            decreases n - curr,
        {
            if curr >= n {
                return Err(Error::BufferTooSmall);
            }
            let c = msg[curr];
            if c == 0 {
                return Ok(curr + 1);
            }
            if c & 0xC0 == 0 {
                proof {
                    assert((c & 0xC0 == 0 && c != 0) ==> 1 <= c <= 63) by (bit_vector);
                }
                if (c as usize) + 1 > n - curr {
                    return Err(Error::BufferTooSmall);
                }
                curr = curr + 1 + c as usize;
            } else if c & 0xC0 == 0xC0 {
                proof {
                    assert(c & 0xC0 == 0xC0 ==> c > 63) by (bit_vector);
                }
                if curr + 1 >= n {
                    return Err(Error::InvalidPointer);
                }
                let target = ((c & 0x3F) as usize) * 256 + msg[curr + 1] as usize;
                if target >= curr {
                    return Err(Error::InvalidPointer);
                }
                return Ok(curr + 2);
            } else {
                proof {
                    assert((c & 0xC0 != 0 && c & 0xC0 != 0xC0) ==> c > 63) by (bit_vector);
                }
                return Err(Error::InvalidPointer);
            }
        }
    }
}

} // verus!
