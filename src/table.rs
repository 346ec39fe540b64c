//! The symbol table: log-site indices mapped to tagged format strings.
use std::collections::BTreeMap;
use vstd::prelude::*;
use vstd::std_specs::cmp::OrdSpec;
use vstd::std_specs::iter::IteratorSpec;
use vstd::string::StringExecFns;
use vstd::string::StrSliceExecFns;

verus! {

broadcast use vstd::std_specs::btree::group_btree_axioms;

/// The protocol version that this decoder understands.
pub const DEFMT_VERSION: &'static str = "0.2";

/// What a table entry is for: a severity level, or a role.
#[derive(PartialEq, Eq, Debug, Clone, Copy, Structural)]
pub enum Tag {
    /// Format string of a primitive type.
    Prim,
    /// Format string of a derived structured type.
    Derived,
    /// A user-defined format string of a `write!` invocation.
    Write,
    /// An interned string, for use with `{=istr}`.
    Str,
    /// The global timestamp format.
    Timestamp,
    Trace,
    Debug,
    Info,
    Warn,
    Error,
}

/// The severity level that a tag stands for, if it stands for one.
pub open spec fn tag_level(tag: Tag) -> Option<defmt_parser::Level> {
    match tag {
        Tag::Trace => Some(defmt_parser::Level::Trace),
        Tag::Debug => Some(defmt_parser::Level::Debug),
        Tag::Info => Some(defmt_parser::Level::Info),
        Tag::Warn => Some(defmt_parser::Level::Warn),
        Tag::Error => Some(defmt_parser::Level::Error),
        _ => None,
    }
}

impl Tag {
    pub fn to_level(&self) -> (r: Option<defmt_parser::Level>)
        ensures
            r == tag_level(*self),
    {
        match self {
            Tag::Trace => Some(defmt_parser::Level::Trace),
            Tag::Debug => Some(defmt_parser::Level::Debug),
            Tag::Info => Some(defmt_parser::Level::Info),
            Tag::Warn => Some(defmt_parser::Level::Warn),
            Tag::Error => Some(defmt_parser::Level::Error),
            _ => None,
        }
    }
}

/// A tagged format string.
#[derive(Debug)]
pub struct StringEntry {
    pub tag: Tag,
    pub string: String,
}

impl StringEntry {
    pub fn new(tag: Tag, string: String) -> (r: Self)
        ensures
            r.tag == tag,
            r.string@ == string@,
    {
        StringEntry { tag, string }
    }
}

/// A tagged format string with the symbol it was read from.
#[derive(Debug)]
pub struct TableEntry {
    pub string: StringEntry,
    pub raw_symbol: String,
}

impl TableEntry {
    pub fn new(string: StringEntry, raw_symbol: String) -> (r: Self)
        ensures
            r.string == string,
            r.raw_symbol@ == raw_symbol@,
    {
        TableEntry { string, raw_symbol }
    }

    /// An entry whose symbol is unknown.
    pub fn new_without_symbol(tag: Tag, string: String) -> (r: Self)
        ensures
            r.string.tag == tag,
            r.string.string@ == string@,
            r.raw_symbol@ == "<unknown>"@,
    {
        TableEntry { string: StringEntry::new(tag, string), raw_symbol: String::from_str("<unknown>") }
    }
}

/// Maps log-site indices to format strings, and holds the timestamp format.
#[derive(Debug)]
pub struct Table {
    pub timestamp: Option<TableEntry>,
    pub entries: BTreeMap<usize, TableEntry>,
}

impl Table {
    /// The entry at `index`, if any.
    pub open spec fn entry(&self, index: usize) -> Option<TableEntry> {
        if self.entries@.contains_key(index) {
            Some(self.entries@[index])
        } else {
            None
        }
    }

    /// The format string and level at `index`, where the entry there has a level.
    pub open spec fn with_level(&self, index: usize) -> Option<(defmt_parser::Level, Seq<char>)> {
        match self.entry(index) {
            Some(e) => match tag_level(e.string.tag) {
                Some(l) => Some((l, e.string.string@)),
                None => None,
            },
            None => None,
        }
    }

    /// The format string at `index`, where the entry there has no level.
    pub open spec fn without_level(&self, index: usize) -> Option<Seq<char>> {
        match self.entry(index) {
            Some(e) => if tag_level(e.string.tag).is_none() {
                Some(e.string.string@)
            } else {
                None
            },
            None => None,
        }
    }

    /// A table of the given entries, without a timestamp format.
    pub fn new(entries: BTreeMap<usize, TableEntry>) -> (r: Self)
        ensures
            r.entries@ == entries@,
            r.timestamp.is_none(),
    {
        Table { entries, timestamp: None }
    }

    pub fn set_timestamp_entry(&mut self, timestamp: TableEntry)
        ensures
            final(self).entries@ == old(self).entries@,
            final(self).timestamp == Some(timestamp),
    {
        self.timestamp = Some(timestamp);
    }

    pub fn get_with_level(&self, index: usize) -> (r: Option<(defmt_parser::Level, &str)>)
        ensures
            match r {
                Some((l, s)) => self.with_level(index) == Some((l, s@)),
                None => self.with_level(index).is_none(),
            },
    {
        match self.entries.get(&index) {
            Some(e) => match e.string.tag.to_level() {
                Some(l) => Some((l, e.string.string.as_str())),
                None => None,
            },
            None => None,
        }
    }

    pub fn get_without_level(&self, index: usize) -> (r: Option<&str>)
        ensures
            match r {
                Some(s) => self.without_level(index) == Some(s@),
                None => self.without_level(index).is_none(),
            },
    {
        match self.entries.get(&index) {
            Some(e) => match e.string.tag.to_level() {
                Some(_) => None,
                None => Some(e.string.string.as_str()),
            },
            None => None,
        }
    }

    /// The indices whose entries bear a level, in increasing order.
    pub fn indices(&self) -> (r: Vec<usize>)
        ensures
            forall|i: int|
                0 <= i < r@.len() ==> self.entries@.contains_key(#[trigger] r@[i]) && tag_level(
                    self.entries@[r@[i]].string.tag,
                ) is Some,
            forall|k: usize|
                self.entries@.contains_key(k) && tag_level(self.entries@[k].string.tag) is Some
                    ==> r@.contains(k),
            forall|i: int, j: int| 0 <= i < j < r@.len() ==> r@[i] < r@[j],
    {
        let mut out: Vec<usize> = Vec::new();
        let ghost v = vstd::std_specs::btree::spec_btree_map_iter(&self.entries).remaining();
        let ghost mut count: nat = 0;
        let iter0 = self.entries.iter();
        proof {
            lemma_keys_increasing(v);
        }
        for kv in it: iter0
            invariant
                it.seq() == v,
                count == it.index(),
                forall|a: int, b: int| 0 <= a < b < v.len() ==> *v[a].0 < *v[b].0,
                forall|j: int|
                    0 <= j < v.len() ==> self.entries@.contains_key(*v[j].0) && self.entries@[*v[j].0]
                        == *#[trigger] v[j].1,
                out@ == level_keys(v, count),
                forall|i: int|
                    0 <= i < out@.len() ==> self.entries@.contains_key(#[trigger] out@[i])
                        && tag_level(self.entries@[out@[i]].string.tag) is Some,
        {
            let (k, e) = kv;
            if e.string.tag.to_level().is_some() {
                out.push(*k);
            }
            proof {
                count = count + 1;
            }
        }
        proof {
            assert(count == v.len());
            assert forall|k: usize|
                self.entries@.contains_key(k) && tag_level(self.entries@[k].string.tag) is Some
                    implies out@.contains(k) by {
                assert(v.contains((&k, &self.entries@[k])));
                let j = choose|j: int| 0 <= j < v.len() && v[j] == (&k, &self.entries@[k]);
                lemma_level_keys_contains(v, v.len(), j);
            }
            lemma_level_keys_sorted(v, v.len());
        }
        out
    }

    /// Whether `s` is the raw symbol of some entry.
    pub open spec fn is_symbol(&self, s: Seq<char>) -> bool {
        exists|k: usize| self.entries@.contains_key(k) && s == self.entries@[k].raw_symbol@
    }

    /// Whether `ks` lists the table's indices, each once, in increasing order.
    pub open spec fn in_key_order(&self, ks: Seq<usize>) -> bool {
        &&& forall|i: int, j: int| 0 <= i < j < ks.len() ==> ks[i] < ks[j]
        &&& forall|i: int| 0 <= i < ks.len() ==> self.entries@.contains_key(#[trigger] ks[i])
        &&& forall|k: usize| self.entries@.contains_key(k) ==> ks.contains(k)
    }

    /// The raw symbols of the entries, one per entry, in increasing order of
    /// index.
    pub fn raw_symbols(&self) -> (r: Vec<&str>)
        ensures
            exists|ks: Seq<usize>|
                #![trigger self.in_key_order(ks)]
                self.in_key_order(ks) && ks.len() == r@.len() && forall|i: int|
                    0 <= i < ks.len() ==> #[trigger] r@[i]@ == self.entries@[ks[i]].raw_symbol@,
            forall|k: usize| #[trigger]
                self.entries@.contains_key(k) ==> exists|i: int|
                    0 <= i < r@.len() && r@[i]@ == self.entries@[k].raw_symbol@,
            forall|i: int| 0 <= i < r@.len() ==> self.is_symbol(#[trigger] r@[i]@),
    {
        let mut out: Vec<&str> = Vec::new();
        let ghost v = vstd::std_specs::btree::spec_btree_map_iter(&self.entries).remaining();
        let ghost mut count: nat = 0;
        let iter0 = self.entries.iter();
        proof {
            lemma_keys_increasing(v);
        }
        for kv in it: iter0
            invariant
                it.seq() == v,
                count == it.index(),
                count <= v.len(),
                forall|a: int, b: int| 0 <= a < b < v.len() ==> *v[a].0 < *v[b].0,
                forall|j: int|
                    0 <= j < v.len() ==> self.entries@.contains_key(*v[j].0) && self.entries@[*v[j].0]
                        == *#[trigger] v[j].1,
                out@.len() == count,
                forall|i: int| 0 <= i < count ==> #[trigger] out@[i]@ == v[i].1.raw_symbol@,
        {
            let (_, e) = kv;
            out.push(e.raw_symbol.as_str());
            proof {
                count = count + 1;
            }
        }
        proof {
            assert(count == v.len());
            assert forall|k: usize| #[trigger] self.entries@.contains_key(k) implies exists|i: int|
                0 <= i < out@.len() && out@[i]@ == self.entries@[k].raw_symbol@ by {
                assert(v.contains((&k, &self.entries@[k])));
                let j = choose|j: int| 0 <= j < v.len() && v[j] == (&k, &self.entries@[k]);
                assert(out@[j]@ == self.entries@[k].raw_symbol@);
            }
            assert forall|i: int| 0 <= i < out@.len() implies self.is_symbol(#[trigger] out@[i]@) by {
                let k = *v[i].0;
                assert(self.entries@.contains_key(k) && self.entries@[k] == *v[i].1);
            }
            let ks = Seq::new(v.len(), |i: int| *v[i].0);
            assert forall|k: usize| self.entries@.contains_key(k) implies ks.contains(k) by {
                assert(v.contains((&k, &self.entries@[k])));
                let j = choose|j: int| 0 <= j < v.len() && v[j] == (&k, &self.entries@[k]);
                assert(ks[j] == k);
            }
            assert forall|i: int| 0 <= i < ks.len() implies #[trigger] out@[i]@ == self.entries@[ks[i]].raw_symbol@ by {
                assert(self.entries@[*v[i].0] == *v[i].1);
            }
            assert(self.in_key_order(ks));
        }
        out
    }

    pub fn is_empty(&self) -> (r: bool)
        ensures
            r == (self.entries@.len() == 0),
    {
        self.entries.is_empty()
    }
}

/// The keys of the first `n` pairs of `s` whose entries bear a level.
pub open spec fn level_keys(s: Seq<(&usize, &TableEntry)>, n: nat) -> Seq<usize>
    decreases n,
{
    if n == 0 || n > s.len() {
        Seq::empty()
    } else {
        let r = level_keys(s, (n - 1) as nat);
        if tag_level(s[n - 1].1.string.tag) is Some {
            r.push(*s[n - 1].0)
        } else {
            r
        }
    }
}

proof fn lemma_level_keys_sorted(s: Seq<(&usize, &TableEntry)>, n: nat)
    requires
        n <= s.len(),
        forall|a: int, b: int| 0 <= a < b < s.len() ==> *s[a].0 < *s[b].0,
    ensures
        forall|p: int|
            0 <= p < level_keys(s, n).len() ==> exists|j: int|
                0 <= j < n && #[trigger] level_keys(s, n)[p] == *s[j].0,
        forall|p: int, q: int|
            0 <= p < q < level_keys(s, n).len() ==> #[trigger] level_keys(s, n)[p]
                < #[trigger] level_keys(s, n)[q],
    decreases n,
{
    if n > 0 {
        lemma_level_keys_sorted(s, (n - 1) as nat);
        let r = level_keys(s, (n - 1) as nat);
        let o = level_keys(s, n);
        assert forall|p: int| 0 <= p < o.len() implies exists|j: int|
            0 <= j < n && #[trigger] o[p] == *s[j].0 by {
            if p < r.len() {
                assert(o[p] == r[p]);
                let j = choose|j: int| 0 <= j < n - 1 && #[trigger] r[p] == *s[j].0;
            } else {
                assert(o[p] == *s[n - 1].0);
            }
        }
        assert forall|p: int, q: int| 0 <= p < q < o.len() implies #[trigger] o[p] < #[trigger] o[q] by {
            assert(o[p] == r[p]);
            if q < r.len() {
                assert(o[q] == r[q]);
                assert(r[p] < r[q]);
            } else {
                let j = choose|j: int| 0 <= j < n - 1 && #[trigger] r[p] == *s[j].0;
                assert(o[q] == *s[n - 1].0);
            }
        }
    }
}

proof fn lemma_keys_increasing(v: Seq<(&usize, &TableEntry)>)
    requires
        vstd::std_specs::btree::increasing_seq(v.map_values(|kv: (&usize, &TableEntry)| *kv.0)),
    ensures
        forall|a: int, b: int| 0 <= a < b < v.len() ==> *v[a].0 < *v[b].0,
{
    let ks = v.map_values(|kv: (&usize, &TableEntry)| *kv.0);
    assert forall|a: int, b: int| 0 <= a < b < v.len() implies *v[a].0 < *v[b].0 by {
        assert(ks[a].cmp_spec(&ks[b]) is Less);
    }
}

proof fn lemma_level_keys_contains(s: Seq<(&usize, &TableEntry)>, n: nat, j: int)
    requires
        0 <= j < n <= s.len(),
        tag_level(s[j].1.string.tag) is Some,
    ensures
        level_keys(s, n).contains(*s[j].0),
    decreases n,
{
    if j < n - 1 {
        lemma_level_keys_contains(s, (n - 1) as nat, j);
        let r = level_keys(s, (n - 1) as nat);
        let i = choose|i: int| 0 <= i < r.len() && r[i] == *s[j].0;
        if tag_level(s[n - 1].1.string.tag) is Some {
            assert(r.push(*s[n - 1].0)[i] == *s[j].0);
        }
    } else {
        let r = level_keys(s, (n - 1) as nat);
        assert(r.push(*s[j].0)[r.len() as int] == *s[j].0);
    }
}

/// How a version string reads: a release number, or a commit hash.
#[derive(PartialEq, Eq, Debug, Clone, Copy, Structural)]
pub enum VersionKind {
    /// "1" or "0.1"
    Semver,
    /// "e739d0ac703dfa629a159be329e8c62a1c3ed206"
    Git,
}

pub open spec fn is_digit(c: char) -> bool {
    '0' <= c && c <= '9'
}

/// The value of a string of decimal digits.
pub open spec fn decimal_value(d: Seq<char>) -> nat
    decreases d.len(),
{
    if d.len() == 0 {
        0
    } else {
        decimal_value(d.drop_last()) * 10 + (d.last() as nat - 48) as nat
    }
}

/// `v` without the `+` it may start with.
pub open spec fn unsigned_digits(v: Seq<char>) -> Seq<char> {
    if v.len() > 0 && v[0] == '+' {
        v.drop_first()
    } else {
        v
    }
}

/// Whether `v` reads as a `u64`: an optional `+`, then at least one decimal
/// digit, with a value that fits in 64 bits.
pub open spec fn is_u64_text(v: Seq<char>) -> bool {
    let d = unsigned_digits(v);
    &&& d.len() > 0
    &&& forall|i: int| 0 <= i < d.len() ==> is_digit(#[trigger] d[i])
    &&& decimal_value(d) <= u64::MAX
}

/// A version that holds a `.` or reads as a plain unsigned integer is a
/// release number; anything else is taken for a commit hash.
pub open spec fn version_kind(v: Seq<char>) -> VersionKind {
    if v.contains('.') || is_u64_text(v) {
        VersionKind::Semver
    } else {
        VersionKind::Git
    }
}

fn contains_dot(v: &str) -> (r: bool)
    ensures
        r == v@.contains('.'),
{
    let n = v.unicode_len();
    let mut i: usize = 0;
    while i < n
        invariant
            n as nat == v@.len(),
            i <= n,
            forall|j: int| 0 <= j < i ==> v@[j] != '.',
        decreases n - i,
    {
        if v.get_char(i) == '.' {
            assert(v@[i as int] == '.');
            return true;
        }
        i = i + 1;
    }
    false
}

proof fn lemma_decimal_grows(d: Seq<char>, c: char)
    requires
        is_digit(c),
    ensures
        decimal_value(d.push(c)) >= decimal_value(d),
        decimal_value(d.push(c)) == decimal_value(d) * 10 + (c as nat - 48),
{
    assert(d.push(c).drop_last() =~= d);
}

proof fn lemma_decimal_prefix_bound(d: Seq<char>, n: int)
    requires
        0 <= n <= d.len(),
        forall|i: int| 0 <= i < d.len() ==> is_digit(#[trigger] d[i]),
    ensures
        decimal_value(d.subrange(0, n)) <= decimal_value(d),
    decreases d.len() - n,
{
    if n < d.len() {
        lemma_decimal_prefix_bound(d, n + 1);
        assert(d.subrange(0, n + 1) =~= d.subrange(0, n).push(d[n]));
        lemma_decimal_grows(d.subrange(0, n), d[n]);
    } else {
        assert(d.subrange(0, n) =~= d);
    }
}

/// Whether `v` reads as a `u64`.
fn parses_as_u64(v: &str) -> (r: bool)
    ensures
        r == is_u64_text(v@),
{
    let n = v.unicode_len();
    let mut i: usize = 0;
    if n > 0 && v.get_char(0) == '+' {
        i = 1;
    }
    let ghost d = unsigned_digits(v@);
    let first = i;
    assert(d =~= v@.subrange(first as int, n as int));
    if i == n {
        return false;
    }
    let mut acc: u64 = 0;
    while i < n
        invariant
            n as nat == v@.len(),
            first <= i <= n,
            d == unsigned_digits(v@),
            d =~= v@.subrange(first as int, n as int),
            forall|j: int| first <= j < i ==> is_digit(#[trigger] v@[j]),
            acc as nat == decimal_value(v@.subrange(first as int, i as int)),
        decreases n - i,
    {
        let c = v.get_char(i);
        if !('0' <= c && c <= '9') {
            assert(unsigned_digits(v@)[i - first] == c);
            assert(!is_digit(unsigned_digits(v@)[i - first]));
            assert(!is_u64_text(v@));
            return false;
        }
        let dig: u64 = (c as u32 - 48) as u64;
        proof {
            assert(v@.subrange(first as int, i + 1) =~= v@.subrange(first as int, i as int).push(c));
            lemma_decimal_grows(v@.subrange(first as int, i as int), c);
        }
        if acc > (0xFFFF_FFFF_FFFF_FFFF - dig) / 10 {
            proof {
                assert(acc * 10 + dig > 0xFFFF_FFFF_FFFF_FFFF) by (nonlinear_arith)
                    requires
                        acc > (0xFFFF_FFFF_FFFF_FFFF - dig) / 10,
                        dig <= 9,
                ;
                assert(decimal_value(v@.subrange(first as int, i + 1)) > u64::MAX);
                if forall|j: int|
                    0 <= j < unsigned_digits(v@).len() ==> is_digit(#[trigger] unsigned_digits(v@)[j]) {
                    lemma_decimal_prefix_bound(d, i + 1 - first);
                    assert(d.subrange(0, i + 1 - first) =~= v@.subrange(first as int, i + 1));
                }
                assert(!is_u64_text(v@));
            }
            return false;
        }
        acc = acc * 10 + dig;
        i = i + 1;
    }
    assert(v@.subrange(first as int, n as int) =~= d);
    true
}

/// The suggestion for a firmware version of kind `firmware` when this decoder
/// supports one of kind `host`.
pub open spec fn suggestion(firmware: VersionKind, host: VersionKind, version: Seq<char>) -> Seq<char> {
    match (firmware, host) {
        (VersionKind::Git, VersionKind::Git) => "pin _all_ `defmt` related dependencies to revision "@
            + DEFMT_VERSION@ + "; modify Cargo.toml files as shown below\n\n[dependencies]\ndefmt = { git = \"https://github.com/knurling-rs/defmt\", rev = \""@
            + DEFMT_VERSION@ + "\" }\ndefmt-rtt = { git = \"https://github.com/knurling-rs/defmt\", rev = \""@
            + DEFMT_VERSION@ + "\" }\n# ONLY pin this dependency if you are using the `print-defmt` feature\npanic-probe = { git = \"https://github.com/knurling-rs/defmt\", features = [\"print-defmt\"], rev = \""@
            + DEFMT_VERSION@ + "\" }"@,
        (VersionKind::Git, VersionKind::Semver) => "migrate your firmware to a crates.io version of defmt (check https://https://defmt.ferrous-systems.com) OR\n`cargo install` a _git_ version of `probe-run`: `cargo install --git https://github.com/knurling-rs/probe-run --branch main`"@,
        (VersionKind::Semver, VersionKind::Git) => "`cargo install` a non-git version of `probe-run`: `cargo install probe-run`"@,
        (VersionKind::Semver, VersionKind::Semver) => "`cargo install` a different non-git version of `probe-run` that supports defmt "@
            + version,
    }
}

/// The diagnostic for firmware version `version`.
pub open spec fn mismatch_message(version: Seq<char>) -> Seq<char> {
    "defmt version mismatch: firmware is using "@ + version + ", `probe-run` supports "@
        + DEFMT_VERSION@ + "\nsuggestion: "@ + suggestion(
        version_kind(version),
        version_kind(DEFMT_VERSION@),
        version,
    )
}

fn kind_of(v: &str) -> (r: VersionKind)
    ensures
        r == version_kind(v@),
{
    if contains_dot(v) || parses_as_u64(v) {
        VersionKind::Semver
    } else {
        VersionKind::Git
    }
}

/// Checks that the firmware's protocol version is the one this decoder
/// understands; if not, describes what to do.
pub fn check_version(version: &str) -> (r: Result<(), String>)
    ensures
        match r {
            Ok(_) => version@ == DEFMT_VERSION@,
            Err(msg) => version@ != DEFMT_VERSION@ && msg@ == mismatch_message(version@),
        },
{
    if crate::render::str_eq(version, DEFMT_VERSION) {
        return Ok(());
    }
    let mut msg = String::from_str("defmt version mismatch: firmware is using ");
    msg.append(version);
    msg.append(", `probe-run` supports ");
    msg.append(DEFMT_VERSION);
    msg.append("\nsuggestion: ");
    match (kind_of(version), kind_of(DEFMT_VERSION)) {
        (VersionKind::Git, VersionKind::Git) => {
            msg.append("pin _all_ `defmt` related dependencies to revision ");
            msg.append(DEFMT_VERSION);
            msg.append("; modify Cargo.toml files as shown below\n\n[dependencies]\ndefmt = { git = \"https://github.com/knurling-rs/defmt\", rev = \"");
            msg.append(DEFMT_VERSION);
            msg.append("\" }\ndefmt-rtt = { git = \"https://github.com/knurling-rs/defmt\", rev = \"");
            msg.append(DEFMT_VERSION);
            msg.append("\" }\n# ONLY pin this dependency if you are using the `print-defmt` feature\npanic-probe = { git = \"https://github.com/knurling-rs/defmt\", features = [\"print-defmt\"], rev = \"");
            msg.append(DEFMT_VERSION);
            msg.append("\" }");
        },
        (VersionKind::Git, VersionKind::Semver) => {
            msg.append("migrate your firmware to a crates.io version of defmt (check https://https://defmt.ferrous-systems.com) OR\n`cargo install` a _git_ version of `probe-run`: `cargo install --git https://github.com/knurling-rs/probe-run --branch main`");
        },
        (VersionKind::Semver, VersionKind::Git) => {
            msg.append("`cargo install` a non-git version of `probe-run`: `cargo install probe-run`");
        },
        (VersionKind::Semver, VersionKind::Semver) => {
            msg.append("`cargo install` a different non-git version of `probe-run` that supports defmt ");
            msg.append(version);
        },
    }
    assert(msg@ =~= mismatch_message(version@));
    Err(msg)
}

} // verus!
