//! The saved configuration: server settings and the table of devices.
use vstd::prelude::*;
use vstd::utf8::*;

verus! {

broadcast use vstd::utf8::encode_utf8_decode_utf8;

/// `std::path::PathBuf`, declared so that paths can be carried through the
/// library; nothing here reads them.
#[verifier::external_type_specification]
#[verifier::external_body]
pub struct ExPathBuf(std::path::PathBuf);

/// `<PathBuf as Clone>::clone` (std), trusted: the copy holds the same path
/// as the original.
pub assume_specification[ <std::path::PathBuf as Clone>::clone ](p: &std::path::PathBuf) -> (res:
    std::path::PathBuf)
    ensures
        res == *p,
;

/// Settings of the HTTPS control plane; each may be missing.
#[derive(Debug, Clone)]
pub struct ServerConfig {
    pub bind: Option<String>,
    pub cert_path: Option<std::path::PathBuf>,
    pub key_path: Option<std::path::PathBuf>,
    pub bearer_token: Option<String>,
}

impl ServerConfig {
    /// The settings with nothing set.
    pub open spec fn spec_empty() -> ServerConfig {
        ServerConfig { bind: None, cert_path: None, key_path: None, bearer_token: None }
    }
}

impl Default for ServerConfig {
    fn default() -> (res: ServerConfig)
        ensures
            res == ServerConfig::spec_empty(),
    {
        ServerConfig { bind: None, cert_path: None, key_path: None, bearer_token: None }
    }
}

/// Where to send the magic packet of one device.
#[derive(Debug, Clone)]
pub struct DeviceConfig {
    pub mac: String,
    pub host: String,
    pub port: u16,
}

impl DeviceConfig {
    /// A field-by-field copy.
    pub(crate) fn duplicate(&self) -> (res: DeviceConfig)
        ensures
            res == *self,
    {
        DeviceConfig { mac: self.mac.clone(), host: self.host.clone(), port: self.port }
    }
}

/// Lexicographic order on byte strings: the order of `str` and `String`.
pub open spec fn bytes_lt(a: Seq<u8>, b: Seq<u8>) -> bool
    decreases a.len(),
{
    if a.len() == 0 {
        b.len() > 0
    } else if b.len() == 0 {
        false
    } else if a[0] != b[0] {
        a[0] < b[0]
    } else {
        bytes_lt(a.drop_first(), b.drop_first())
    }
}

/// The order of device names: the order of their UTF-8 bytes.
pub open spec fn name_lt(a: Seq<char>, b: Seq<char>) -> bool {
    bytes_lt(encode_utf8(a), encode_utf8(b))
}

pub proof fn lemma_bytes_lt_irreflexive(a: Seq<u8>)
    ensures
        !bytes_lt(a, a),
    decreases a.len(),
{
    if a.len() > 0 {
        lemma_bytes_lt_irreflexive(a.drop_first());
    }
}

pub proof fn lemma_bytes_lt_transitive(a: Seq<u8>, b: Seq<u8>, c: Seq<u8>)
    requires
        bytes_lt(a, b),
        bytes_lt(b, c),
    ensures
        bytes_lt(a, c),
    decreases a.len(),
{
    if a.len() > 0 && b.len() > 0 && c.len() > 0 && a[0] == b[0] && b[0] == c[0] {
        lemma_bytes_lt_transitive(a.drop_first(), b.drop_first(), c.drop_first());
    }
}

pub proof fn lemma_bytes_lt_total(a: Seq<u8>, b: Seq<u8>)
    requires
        a != b,
    ensures
        bytes_lt(a, b) || bytes_lt(b, a),
    decreases a.len(),
{
    if a.len() == 0 && b.len() == 0 {
        assert(a =~= b);
    } else if a.len() > 0 && b.len() > 0 && a[0] == b[0] {
        if a.drop_first() == b.drop_first() {
            assert(a =~= seq![a[0]] + a.drop_first());
            assert(b =~= seq![b[0]] + b.drop_first());
        }
        lemma_bytes_lt_total(a.drop_first(), b.drop_first());
    }
}

proof fn lemma_bytes_lt_skip(a: Seq<u8>, b: Seq<u8>, i: int)
    requires
        0 <= i <= a.len(),
        i <= b.len(),
        a.take(i) == b.take(i),
    ensures
        bytes_lt(a, b) == bytes_lt(a.skip(i), b.skip(i)),
    decreases i,
{
    if i == 0 {
        assert(a.skip(0) =~= a);
        assert(b.skip(0) =~= b);
    } else {
        assert(a[0] == a.take(i)[0]);
        assert(b[0] == b.take(i)[0]);
        assert(a.drop_first().take(i - 1) =~= a.take(i).drop_first());
        assert(b.drop_first().take(i - 1) =~= b.take(i).drop_first());
        lemma_bytes_lt_skip(a.drop_first(), b.drop_first(), i - 1);
        assert(a.drop_first().skip(i - 1) =~= a.skip(i));
        assert(b.drop_first().skip(i - 1) =~= b.skip(i));
    }
}

/// The order of names is a strict total order.
pub proof fn lemma_name_lt_facts()
    ensures
        forall|a: Seq<char>| !name_lt(a, a),
        forall|a: Seq<char>, b: Seq<char>, c: Seq<char>|
            name_lt(a, b) && name_lt(b, c) ==> name_lt(a, c),
        forall|a: Seq<char>, b: Seq<char>| a != b ==> name_lt(a, b) || name_lt(b, a),
{
    assert forall|a: Seq<char>| !name_lt(a, a) by {
        lemma_bytes_lt_irreflexive(encode_utf8(a));
    }
    assert forall|a: Seq<char>, b: Seq<char>, c: Seq<char>|
        name_lt(a, b) && name_lt(b, c) implies name_lt(a, c) by {
        lemma_bytes_lt_transitive(encode_utf8(a), encode_utf8(b), encode_utf8(c));
    }
    assert forall|a: Seq<char>, b: Seq<char>| a != b implies name_lt(a, b) || name_lt(b, a) by {
        if encode_utf8(a) == encode_utf8(b) {
            assert(decode_utf8(encode_utf8(a)) == a);
            assert(decode_utf8(encode_utf8(b)) == b);
        }
        lemma_bytes_lt_total(encode_utf8(a), encode_utf8(b));
    }
}

/// Byte strings are ordered at their first difference, the smaller byte first.
pub proof fn law_bytes_order_first_difference(p: Seq<u8>, x: u8, y: u8, a: Seq<u8>, b: Seq<u8>)
    requires
        x < y,
    ensures
        bytes_lt(p + seq![x] + a, p + seq![y] + b),
        !bytes_lt(p + seq![y] + b, p + seq![x] + a),
    decreases p.len(),
{
    let l = p + seq![x] + a;
    let r = p + seq![y] + b;
    if p.len() == 0 {
        assert(l[0] == x);
        assert(r[0] == y);
    } else {
        law_bytes_order_first_difference(p.drop_first(), x, y, a, b);
        assert(l[0] == p[0] && r[0] == p[0]);
        assert(l.drop_first() =~= p.drop_first() + seq![x] + a);
        assert(r.drop_first() =~= p.drop_first() + seq![y] + b);
    }
}

/// A byte string comes before every longer string that starts with it.
pub proof fn law_bytes_order_prefix_first(p: Seq<u8>, x: u8, a: Seq<u8>)
    ensures
        bytes_lt(p, p + seq![x] + a),
        !bytes_lt(p + seq![x] + a, p),
    decreases p.len(),
{
    let r = p + seq![x] + a;
    if p.len() > 0 {
        law_bytes_order_prefix_first(p.drop_first(), x, a);
        assert(r[0] == p[0]);
        assert(r.drop_first() =~= p.drop_first() + seq![x] + a);
    }
}

/// Names are ordered by their UTF-8 bytes: at the first byte where two names
/// differ, the one with the smaller byte comes first, and a name comes before
/// every longer name that starts with it.
pub proof fn law_name_order_by_bytes(
    s: Seq<char>,
    t: Seq<char>,
    p: Seq<u8>,
    x: u8,
    y: u8,
    a: Seq<u8>,
    b: Seq<u8>,
)
    ensures
        encode_utf8(s) == p + seq![x] + a && encode_utf8(t) == p + seq![y] + b && x < y ==> (
        name_lt(s, t) && !name_lt(t, s)),
        encode_utf8(s) == p && encode_utf8(t) == p + seq![x] + a ==> (name_lt(s, t) && !name_lt(
            t,
            s,
        )),
{
    if x < y {
        law_bytes_order_first_difference(p, x, y, a, b);
    }
    law_bytes_order_prefix_first(p, x, a);
}

/// Three-way result of comparing two names.
#[derive(Debug, Clone, Copy, PartialEq, Eq, Structural)]
pub enum NameOrder {
    Less,
    Equal,
    Greater,
}

/// Compares two names as `str` does, byte by byte.
pub fn compare_names(a: &str, b: &str) -> (res: NameOrder)
    ensures
        res == NameOrder::Less <==> name_lt(a@, b@),
        res == NameOrder::Equal <==> a@ == b@,
        res == NameOrder::Greater <==> name_lt(b@, a@),
{
    proof {
        lemma_name_lt_facts();
    }
    let ab = a.as_bytes();
    let bb = b.as_bytes();
    let mut i: usize = 0;
    while i < ab.len() && i < bb.len()
        invariant
            ab@ == encode_utf8(a@),
            bb@ == encode_utf8(b@),
            i <= ab@.len(),
            i <= bb@.len(),
            ab@.take(i as int) == bb@.take(i as int),
        decreases ab@.len() - i,
    {
        if ab[i] != bb[i] {
            proof {
                lemma_bytes_lt_skip(ab@, bb@, i as int);
                lemma_bytes_lt_skip(bb@, ab@, i as int);
                assert(ab@.skip(i as int)[0] == ab@[i as int]);
                assert(bb@.skip(i as int)[0] == bb@[i as int]);
            }
            if ab[i] < bb[i] {
                return NameOrder::Less;
            } else {
                return NameOrder::Greater;
            }
        }
        assert(ab@.take(i + 1) =~= ab@.take(i as int).push(ab@[i as int]));
        assert(bb@.take(i + 1) =~= bb@.take(i as int).push(bb@[i as int]));
        i = i + 1;
    }
    proof {
        lemma_bytes_lt_skip(ab@, bb@, i as int);
        lemma_bytes_lt_skip(bb@, ab@, i as int);
    }
    if ab.len() < bb.len() {
        NameOrder::Less
    } else if bb.len() < ab.len() {
        NameOrder::Greater
    } else {
        assert(ab@ =~= ab@.take(i as int));
        assert(bb@ =~= bb@.take(i as int));
        assert(decode_utf8(encode_utf8(a@)) == a@);
        assert(decode_utf8(encode_utf8(b@)) == b@);
        NameOrder::Equal
    }
}

/// The entries' names strictly increase: sorted, and no name twice.
pub open spec fn names_increasing(s: Seq<(String, DeviceConfig)>) -> bool {
    forall|i: int, j: int| 0 <= i < j < s.len() ==> name_lt(#[trigger] s[i].0@, #[trigger] s[j].0@)
}

/// The map from names to devices that a list of entries denotes.
pub open spec fn entries_map(s: Seq<(String, DeviceConfig)>) -> Map<Seq<char>, DeviceConfig>
    decreases s.len(),
{
    if s.len() == 0 {
        Map::empty()
    } else {
        entries_map(s.drop_last()).insert(s.last().0@, s.last().1)
    }
}

proof fn lemma_entries_map_domain(s: Seq<(String, DeviceConfig)>, k: Seq<char>)
    ensures
        entries_map(s).contains_key(k) <==> exists|i: int| 0 <= i < s.len() && #[trigger] s[i].0@ == k,
    decreases s.len(),
{
    if s.len() > 0 {
        lemma_entries_map_domain(s.drop_last(), k);
        if entries_map(s.drop_last()).contains_key(k) {
            let i = choose|i: int| 0 <= i < s.drop_last().len() && #[trigger] s.drop_last()[i].0@ == k;
            assert(s[i].0@ == k);
        }
        if exists|i: int| 0 <= i < s.len() && #[trigger] s[i].0@ == k {
            let i = choose|i: int| 0 <= i < s.len() && #[trigger] s[i].0@ == k;
            if i < s.len() - 1 {
                assert(s.drop_last()[i].0@ == k);
            }
        }
    }
}

pub proof fn lemma_entries_map_value(s: Seq<(String, DeviceConfig)>, i: int)
    requires
        names_increasing(s),
        0 <= i < s.len(),
    ensures
        entries_map(s).contains_key(s[i].0@),
        entries_map(s)[s[i].0@] == s[i].1,
    decreases s.len(),
{
    lemma_name_lt_facts();
    if i < s.len() - 1 {
        assert(names_increasing(s.drop_last()));
        assert(s.drop_last()[i] == s[i]);
        lemma_entries_map_value(s.drop_last(), i);
        assert(name_lt(s[i].0@, s[s.len() - 1].0@));
    }
}

/// An entry list with increasing names denotes `m` when `m` has exactly the
/// list's names as keys, each with the device listed beside it.
proof fn lemma_entries_map_ext(s: Seq<(String, DeviceConfig)>, m: Map<Seq<char>, DeviceConfig>)
    requires
        names_increasing(s),
        forall|k: Seq<char>|
            m.contains_key(k) <==> exists|i: int| 0 <= i < s.len() && #[trigger] s[i].0@ == k,
        forall|i: int| 0 <= i < s.len() ==> m[#[trigger] s[i].0@] == s[i].1,
    ensures
        entries_map(s) == m,
{
    assert forall|k: Seq<char>| entries_map(s).contains_key(k) <==> m.contains_key(k) by {
        lemma_entries_map_domain(s, k);
    }
    assert forall|k: Seq<char>| #[trigger] entries_map(s).contains_key(k) implies entries_map(s)[k]
        == m[k] by {
        lemma_entries_map_domain(s, k);
        let i = choose|i: int| 0 <= i < s.len() && #[trigger] s[i].0@ == k;
        lemma_entries_map_value(s, i);
    }
    assert(entries_map(s) =~= m);
}

/// The saved devices, keyed by name and kept in name order.
#[derive(Debug)]
pub struct DeviceMap {
    entries: Vec<(String, DeviceConfig)>,
}

impl View for DeviceMap {
    type V = Map<Seq<char>, DeviceConfig>;

    closed spec fn view(&self) -> Map<Seq<char>, DeviceConfig> {
        entries_map(self.entries@)
    }
}

impl DeviceMap {
    #[verifier::type_invariant]
    spec fn names_in_order(self) -> bool {
        names_increasing(self.entries@)
    }

    /// The entries in name order.
    pub closed spec fn spec_entries(&self) -> Seq<(String, DeviceConfig)> {
        self.entries@
    }

    /// A table without devices.
    pub fn new() -> (res: DeviceMap)
        ensures
            res@ == Map::<Seq<char>, DeviceConfig>::empty(),
            res.spec_entries().len() == 0,
    {
        DeviceMap { entries: Vec::new() }
    }

    /// The number of devices.
    pub fn len(&self) -> (res: usize)
        ensures
            res == self@.len(),
            res == self.spec_entries().len(),
    {
        proof {
            use_type_invariant(self);
            self.lemma_len();
        }
        self.entries.len()
    }

    /// Whether no device is saved.
    pub fn is_empty(&self) -> (res: bool)
        ensures
            res <==> self@ == Map::<Seq<char>, DeviceConfig>::empty(),
            res <==> self.spec_entries().len() == 0,
    {
        proof {
            use_type_invariant(self);
            self.lemma_len();
            if self.entries@.len() == 0 {
                assert(self@ =~= Map::<Seq<char>, DeviceConfig>::empty());
            } else {
                lemma_entries_map_value(self.entries@, 0);
            }
        }
        self.entries.len() == 0
    }

    proof fn lemma_len(&self)
        requires
            names_increasing(self.entries@),
        ensures
            self@.dom().finite(),
            self@.len() == self.entries@.len(),
        decreases self.entries@.len(),
    {
        lemma_entries_len(self.entries@);
    }

    /// The entries, in increasing name order.
    pub fn entries(&self) -> (res: &[(String, DeviceConfig)])
        ensures
            res@ == self.spec_entries(),
            names_increasing(res@),
            entries_map(res@) == self@,
    {
        proof {
            use_type_invariant(self);
        }
        self.entries.as_slice()
    }

    /// The first position whose name is not below `name`.
    fn find_slot(&self, name: &str) -> (res: usize)
        ensures
            res <= self.entries@.len(),
            forall|j: int| 0 <= j < res ==> name_lt(#[trigger] self.entries@[j].0@, name@),
            forall|j: int|
                res <= j < self.entries@.len() ==> !name_lt(#[trigger] self.entries@[j].0@, name@),
            res < self.entries@.len() && self.entries@[res as int].0@ != name@ ==> forall|j: int|
                res <= j < self.entries@.len() ==> name_lt(name@, #[trigger] self.entries@[j].0@),
    {
        proof {
            use_type_invariant(self);
            lemma_name_lt_facts();
        }
        let mut i: usize = 0;
        while i < self.entries.len()
            invariant
                i <= self.entries@.len(),
                names_increasing(self.entries@),
                forall|j: int| 0 <= j < i ==> name_lt(#[trigger] self.entries@[j].0@, name@),
            decreases self.entries@.len() - i,
        {
            match compare_names(self.entries[i].0.as_str(), name) {
                NameOrder::Less => {},
                _ => {
                    proof {
                        lemma_name_lt_facts();
                        assert forall|j: int| i <= j < self.entries@.len() implies !name_lt(
                            #[trigger] self.entries@[j].0@,
                            name@,
                        ) by {
                            if j > i {
                                assert(name_lt(self.entries@[i as int].0@, self.entries@[j].0@));
                            }
                        }
                        if self.entries@[i as int].0@ != name@ {
                            assert forall|j: int| i <= j < self.entries@.len() implies name_lt(
                                name@,
                                #[trigger] self.entries@[j].0@,
                            ) by {
                                if j > i {
                                    assert(name_lt(
                                        self.entries@[i as int].0@,
                                        self.entries@[j].0@,
                                    ));
                                }
                            }
                        }
                    }
                    return i;
                },
            }
            i = i + 1;
        }
        i
    }

    /// The device saved under `name`.
    pub fn get(&self, name: &str) -> (res: Option<&DeviceConfig>)
        ensures
            res is Some <==> self@.contains_key(name@),
            res matches Some(d) ==> *d == self@[name@],
    {
        proof {
            use_type_invariant(self);
            lemma_name_lt_facts();
        }
        let p = self.find_slot(name);
        if p < self.entries.len() && compare_names(self.entries[p].0.as_str(), name)
            == NameOrder::Equal {
            proof {
                lemma_entries_map_value(self.entries@, p as int);
            }
            Some(&self.entries[p].1)
        } else {
            proof {
                lemma_entries_map_domain(self.entries@, name@);
                if self@.contains_key(name@) {
                    let i = choose|i: int|
                        0 <= i < self.entries@.len() && #[trigger] self.entries@[i].0@ == name@;
                    if i < p {
                        assert(name_lt(self.entries@[i].0@, name@));
                    } else {
                        assert(!name_lt(self.entries@[i].0@, name@));
                        assert(name_lt(name@, self.entries@[i].0@));
                    }
                }
            }
            None
        }
    }

    /// Saves `device` under `name`, replacing what was saved there, which is returned.
    pub fn insert(&mut self, name: String, device: DeviceConfig) -> (res: Option<DeviceConfig>)
        ensures
            final(self)@ == old(self)@.insert(name@, device),
            res is Some <==> old(self)@.contains_key(name@),
            res matches Some(d) ==> d == old(self)@[name@],
    {
        proof {
            use_type_invariant(&*self);
            lemma_name_lt_facts();
        }
        let p = self.find_slot(name.as_str());
        let mut entries: Vec<(String, DeviceConfig)> = Vec::new();
        std::mem::swap(&mut entries, &mut self.entries);
        let ghost s = entries@;
        let ghost m = entries_map(s);
        let ghost key = name@;
        if p < entries.len() && compare_names(entries[p].0.as_str(), name.as_str())
            == NameOrder::Equal {
            let old_entry = entries.remove(p);
            entries.insert(p, (name, device));
            proof {
                let t = entries@;
                assert(t =~= s.update(p as int, (t[p as int].0, device)));
                assert(names_increasing(t)) by {
                    assert forall|i: int, j: int| 0 <= i < j < t.len() implies name_lt(
                        #[trigger] t[i].0@,
                        #[trigger] t[j].0@,
                    ) by {
                        assert(s[i].0@ == t[i].0@ || i == p);
                        assert(s[j].0@ == t[j].0@ || j == p);
                    }
                }
                lemma_entries_map_value(s, p as int);
                assert forall|k: Seq<char>| m.insert(key, device).contains_key(k) <==> exists|i: int|
                    0 <= i < t.len() && #[trigger] t[i].0@ == k by {
                    lemma_entries_map_domain(s, k);
                    if exists|i: int| 0 <= i < s.len() && #[trigger] s[i].0@ == k {
                        let i = choose|i: int| 0 <= i < s.len() && #[trigger] s[i].0@ == k;
                        assert(t[i].0@ == k);
                    }
                    if exists|i: int| 0 <= i < t.len() && #[trigger] t[i].0@ == k {
                        let i = choose|i: int| 0 <= i < t.len() && #[trigger] t[i].0@ == k;
                        assert(s[i].0@ == k);
                    }
                }
                assert forall|i: int| 0 <= i < t.len() implies m.insert(key, device)[
                    #[trigger] t[i].0@] == t[i].1 by {
                    if i != p {
                        lemma_entries_map_value(s, i);
                        assert(name_lt(s[i].0@, key) || name_lt(key, s[i].0@)) by {
                            if i < p {
                                assert(name_lt(s[i].0@, s[p as int].0@));
                            } else {
                                assert(name_lt(s[p as int].0@, s[i].0@));
                            }
                        }
                    }
                }
                lemma_entries_map_ext(t, m.insert(key, device));
            }
            self.entries = entries;
            Some(old_entry.1)
        } else {
            entries.insert(p, (name, device));
            proof {
                let t = entries@;
                assert(t =~= s.insert(p as int, (t[p as int].0, device)));
                assert(t[p as int].0@ == key);
                assert(names_increasing(t)) by {
                    assert forall|i: int, j: int| 0 <= i < j < t.len() implies name_lt(
                        #[trigger] t[i].0@,
                        #[trigger] t[j].0@,
                    ) by {
                        if j < p {
                            assert(t[i] == s[i] && t[j] == s[j]);
                        } else if j == p {
                            assert(t[i] == s[i]);
                        } else if i < p {
                            assert(t[i] == s[i] && t[j] == s[j - 1]);
                            assert(name_lt(s[i].0@, key));
                            assert(name_lt(key, s[j - 1].0@));
                        } else if i == p {
                            assert(t[j] == s[j - 1]);
                        } else {
                            assert(t[i] == s[i - 1] && t[j] == s[j - 1]);
                        }
                    }
                }
                lemma_entries_map_domain(s, key);
                assert(!m.contains_key(key)) by {
                    if m.contains_key(key) {
                        let i = choose|i: int| 0 <= i < s.len() && #[trigger] s[i].0@ == key;
                        if i < p {
                            assert(name_lt(s[i].0@, key));
                        } else {
                            assert(name_lt(key, s[i].0@));
                        }
                    }
                }
                assert forall|k: Seq<char>| m.insert(key, device).contains_key(k) <==> exists|i: int|
                    0 <= i < t.len() && #[trigger] t[i].0@ == k by {
                    lemma_entries_map_domain(s, k);
                    if exists|i: int| 0 <= i < s.len() && #[trigger] s[i].0@ == k {
                        let i = choose|i: int| 0 <= i < s.len() && #[trigger] s[i].0@ == k;
                        if i < p {
                            assert(t[i].0@ == k);
                        } else {
                            assert(t[i + 1].0@ == k);
                        }
                    }
                    if exists|i: int| 0 <= i < t.len() && #[trigger] t[i].0@ == k {
                        let i = choose|i: int| 0 <= i < t.len() && #[trigger] t[i].0@ == k;
                        if i < p {
                            assert(s[i].0@ == k);
                        } else if i > p {
                            assert(s[i - 1].0@ == k);
                        }
                    }
                }
                assert forall|i: int| 0 <= i < t.len() implies m.insert(key, device)[
                    #[trigger] t[i].0@] == t[i].1 by {
                    if i < p {
                        lemma_entries_map_value(s, i);
                        assert(t[i] == s[i]);
                    } else if i > p {
                        lemma_entries_map_value(s, i - 1);
                        assert(t[i] == s[i - 1]);
                    }
                }
                lemma_entries_map_ext(t, m.insert(key, device));
            }
            self.entries = entries;
            None
        }
    }

    /// Removes the device saved under `name`, returning it.
    pub fn remove(&mut self, name: &str) -> (res: Option<DeviceConfig>)
        ensures
            final(self)@ == old(self)@.remove(name@),
            res is Some <==> old(self)@.contains_key(name@),
            res matches Some(d) ==> d == old(self)@[name@],
    {
        proof {
            use_type_invariant(&*self);
            lemma_name_lt_facts();
        }
        let p = self.find_slot(name);
        let ghost s = self.entries@;
        let ghost m = entries_map(s);
        let ghost key = name@;
        proof {
            lemma_entries_map_domain(s, key);
        }
        if p < self.entries.len() && compare_names(self.entries[p].0.as_str(), name)
            == NameOrder::Equal {
            let mut entries: Vec<(String, DeviceConfig)> = Vec::new();
            std::mem::swap(&mut entries, &mut self.entries);
            let removed = entries.remove(p);
            proof {
                let t = entries@;
                lemma_entries_map_value(s, p as int);
                assert(names_increasing(t)) by {
                    assert forall|i: int, j: int| 0 <= i < j < t.len() implies name_lt(
                        #[trigger] t[i].0@,
                        #[trigger] t[j].0@,
                    ) by {
                        if j < p {
                            assert(t[i] == s[i] && t[j] == s[j]);
                        } else if i < p {
                            assert(t[i] == s[i] && t[j] == s[j + 1]);
                        } else {
                            assert(t[i] == s[i + 1] && t[j] == s[j + 1]);
                        }
                    }
                }
                assert forall|k: Seq<char>| m.remove(key).contains_key(k) <==> exists|i: int|
                    0 <= i < t.len() && #[trigger] t[i].0@ == k by {
                    lemma_entries_map_domain(s, k);
                    if exists|i: int| 0 <= i < s.len() && #[trigger] s[i].0@ == k && k != key {
                        let i = choose|i: int| 0 <= i < s.len() && #[trigger] s[i].0@ == k && k != key;
                        if i < p {
                            assert(t[i].0@ == k);
                        } else {
                            assert(i != p);
                            assert(t[i - 1].0@ == k);
                        }
                    }
                    if exists|i: int| 0 <= i < t.len() && #[trigger] t[i].0@ == k {
                        let i = choose|i: int| 0 <= i < t.len() && #[trigger] t[i].0@ == k;
                        if i < p {
                            assert(s[i].0@ == k);
                            assert(name_lt(k, key));
                        } else {
                            assert(s[i + 1].0@ == k);
                            assert(name_lt(s[p as int].0@, s[i + 1].0@));
                        }
                    }
                }
                assert forall|i: int| 0 <= i < t.len() implies m.remove(key)[#[trigger] t[i].0@]
                    == t[i].1 by {
                    if i < p {
                        lemma_entries_map_value(s, i);
                        assert(t[i] == s[i]);
                    } else {
                        lemma_entries_map_value(s, i + 1);
                        assert(t[i] == s[i + 1]);
                    }
                }
                lemma_entries_map_ext(t, m.remove(key));
            }
            self.entries = entries;
            Some(removed.1)
        } else {
            proof {
                assert(!m.contains_key(key)) by {
                    if m.contains_key(key) {
                        let i = choose|i: int| 0 <= i < s.len() && #[trigger] s[i].0@ == key;
                        if i < p {
                            assert(name_lt(s[i].0@, key));
                        } else {
                            assert(name_lt(key, s[i].0@));
                        }
                    }
                }
                assert(m.remove(key) =~= m);
            }
            None
        }
    }
}

proof fn lemma_entries_len(s: Seq<(String, DeviceConfig)>)
    requires
        names_increasing(s),
    ensures
        entries_map(s).dom().finite(),
        entries_map(s).len() == s.len(),
    decreases s.len(),
{
    if s.len() > 0 {
        let r = s.drop_last();
        assert(names_increasing(r));
        lemma_entries_len(r);
        lemma_name_lt_facts();
        lemma_entries_map_domain(r, s.last().0@);
        if entries_map(r).contains_key(s.last().0@) {
            let i = choose|i: int| 0 <= i < r.len() && #[trigger] r[i].0@ == s.last().0@;
            assert(name_lt(s[i].0@, s[s.len() - 1].0@));
        }
    }
}

/// Everything the configuration file holds.
#[derive(Debug)]
pub struct Config {
    pub server: ServerConfig,
    pub devices: DeviceMap,
}

impl Default for Config {
    /// The configuration used when no file exists yet: nothing set, no device.
    fn default() -> (res: Config)
        ensures
            res.server == ServerConfig::spec_empty(),
            res.devices@ == Map::<Seq<char>, DeviceConfig>::empty(),
    {
        Config { server: ServerConfig::default(), devices: DeviceMap::new() }
    }
}

} // verus!
