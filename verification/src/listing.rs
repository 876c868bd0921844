//! Directory listings in the shape of nginx's `autoindex_format json`: one
//! entry per child that is not a dotfile, sorted by name.
use vstd::prelude::*;
use vstd::string::*;
use vstd::utf8::*;

verus! {

/// First time `httpdate` cannot format, in seconds after the epoch:
/// 10000-01-01T00:00:00Z, the end of year 9999.
pub const HTTP_DATE_LIMIT: u64 = 253402300800;

/// When a child was last modified.
#[derive(Clone, Copy, PartialEq, Eq, Debug)]
pub enum ModTime {
    /// Whole seconds since the Unix epoch.
    SinceEpoch(u64),
    /// A time before the Unix epoch.
    BeforeEpoch,
}

/// What the file system reports of a child.
#[derive(Clone, Copy, PartialEq, Eq, Debug)]
pub struct RawMeta {
    pub is_dir: bool,
    /// `None` when the platform cannot report it.
    pub modified: Option<ModTime>,
    /// Length in bytes.
    pub len: u64,
}

/// A child of a directory as read: its name, and its metadata when it could
/// be read.
pub struct RawEntry {
    pub name: String,
    pub meta: Option<RawMeta>,
}

/// The `type` of a listed entry.
#[derive(Clone, Copy, PartialEq, Eq, Debug)]
pub enum EntryKind {
    Directory,
    File,
}

impl EntryKind {
    /// The JSON spelling: `directory` or `file`.
    pub fn as_str(&self) -> (s: &'static str)
        ensures
            s@ == match self {
                EntryKind::Directory => "directory"@,
                EntryKind::File => "file"@,
            },
    {
        match self {
            EntryKind::Directory => "directory",
            EntryKind::File => "file",
        }
    }
}

/// One entry of a listing.
pub struct DirEntry {
    pub name: String,
    pub kind: EntryKind,
    /// Last modification as an HTTP date, or empty when unknown.
    pub mtime: String,
    /// Length in bytes; 0 for directories.
    pub size: u64,
}

/// The abstract value of a listing entry.
pub struct EntryView {
    pub name: Seq<char>,
    pub kind: EntryKind,
    pub mtime: Seq<char>,
    pub size: u64,
}

impl View for DirEntry {
    type V = EntryView;

    open spec fn view(&self) -> EntryView {
        EntryView { name: self.name@, kind: self.kind, mtime: self.mtime@, size: self.size }
    }
}

/// The IMF-fixdate text (`Fri, 15 May 2015 15:34:21 GMT`) that
/// `httpdate::fmt_http_date` gives for this many seconds after the epoch.
pub uninterp spec fn http_date_text(secs: u64) -> Seq<char>;

/// Calls `httpdate::fmt_http_date` on the time `secs` seconds after the Unix
/// epoch. `httpdate` panics at and after year 9999, hence the bound. Claimed:
/// the text depends on `secs` alone.
#[verifier::external_body]
fn fmt_http_date(secs: u64) -> (s: String)
    requires
        secs < HTTP_DATE_LIMIT,
    ensures
        s@ == http_date_text(secs),
{
    httpdate::fmt_http_date(std::time::UNIX_EPOCH + std::time::Duration::from_secs(secs))
}

/// Byte-wise lexicographic order, as `str`'s `Ord` compares.
pub open spec fn bytes_lt(a: Seq<u8>, b: Seq<u8>) -> bool
    decreases a.len(),
{
    if a.len() == 0 {
        b.len() > 0
    } else if b.len() == 0 {
        false
    } else if a[0] != b[0] {
        a[0] < b[0]
    } else {
        bytes_lt(a.skip(1), b.skip(1))
    }
}

/// `a` sorts strictly before `b` as a Rust string.
pub open spec fn name_lt(a: Seq<char>, b: Seq<char>) -> bool {
    bytes_lt(encode_utf8(a), encode_utf8(b))
}

/// Inserts `e` after every entry whose name does not sort after its own.
pub open spec fn insert_by_name(s: Seq<EntryView>, e: EntryView) -> Seq<EntryView>
    decreases s.len(),
{
    if s.len() == 0 {
        seq![e]
    } else if name_lt(e.name, s.last().name) {
        insert_by_name(s.drop_last(), e).push(s.last())
    } else {
        s.push(e)
    }
}

/// The stable sort of `s` by name: entries with equal names keep their order.
pub open spec fn sorted_by_name(s: Seq<EntryView>) -> Seq<EntryView>
    decreases s.len(),
{
    if s.len() == 0 {
        s
    } else {
        insert_by_name(sorted_by_name(s.drop_last()), s.last())
    }
}

/// A dotfile name.
pub open spec fn is_hidden(name: Seq<char>) -> bool {
    name.len() > 0 && name[0] == '.'
}

/// A child that appears in the listing: not a dotfile, metadata readable.
pub open spec fn is_listed(e: RawEntry) -> bool {
    !is_hidden(e.name@) && e.meta is Some
}

/// The modification time of a listed child is formattable.
pub open spec fn date_formattable(meta: RawMeta) -> bool {
    match meta.modified {
        None => true,
        Some(ModTime::SinceEpoch(s)) => s < HTTP_DATE_LIMIT,
        Some(ModTime::BeforeEpoch) => false,
    }
}

/// Every listed child has a formattable modification time.
pub open spec fn dates_formattable(raw: Seq<RawEntry>) -> bool {
    forall|i: int| 0 <= i < raw.len() && is_listed(#[trigger] raw[i]) ==> date_formattable(
        raw[i].meta.unwrap(),
    )
}

/// The listing entry of a child with metadata `meta`, given the text of its
/// modification time.
pub open spec fn entry_of(name: Seq<char>, meta: RawMeta, mtime: Seq<char>) -> EntryView {
    EntryView {
        name,
        kind: if meta.is_dir {
            EntryKind::Directory
        } else {
            EntryKind::File
        },
        mtime,
        size: if meta.is_dir {
            0
        } else {
            meta.len
        },
    }
}

/// The text of a modification time: an HTTP date, or empty when unknown.
pub open spec fn mtime_text(meta: RawMeta) -> Seq<char> {
    match meta.modified {
        Some(ModTime::SinceEpoch(s)) => http_date_text(s),
        _ => Seq::empty(),
    }
}

/// The entries of the listed children, in directory order.
pub open spec fn listed_entries(raw: Seq<RawEntry>) -> Seq<EntryView>
    decreases raw.len(),
{
    if raw.len() == 0 {
        Seq::empty()
    } else {
        let init = listed_entries(raw.drop_last());
        let e = raw.last();
        if is_listed(e) {
            init.push(entry_of(e.name@, e.meta.unwrap(), mtime_text(e.meta.unwrap())))
        } else {
            init
        }
    }
}

/// The abstract values of a vector of entries.
pub open spec fn entries_view(v: Seq<DirEntry>) -> Seq<EntryView> {
    v.map_values(|e: DirEntry| e@)
}

/// Whether `a` sorts strictly before `b`.
fn name_less(a: &String, b: &String) -> (r: bool)
    ensures
        r == name_lt(a@, b@),
{
    let x = a.as_str().as_bytes();
    let y = b.as_str().as_bytes();
    let mut i: usize = 0;
    assert(x@.skip(0) =~= x@ && y@.skip(0) =~= y@);
    while i < x.len() && i < y.len() && x[i] == y[i]
        invariant
            i <= x@.len(),
            i <= y@.len(),
            x@ == encode_utf8(a@),
            y@ == encode_utf8(b@),
            bytes_lt(x@, y@) == bytes_lt(x@.skip(i as int), y@.skip(i as int)),
        decreases x@.len() - i,
    {
        proof {
            let xs = x@.skip(i as int);
            let ys = y@.skip(i as int);
            assert(xs.skip(1) =~= x@.skip(i + 1));
            assert(ys.skip(1) =~= y@.skip(i + 1));
        }
        i = i + 1;
    }
    let ghost xs = x@.skip(i as int);
    let ghost ys = y@.skip(i as int);
    if i == x.len() {
        assert(xs.len() == 0);
        i < y.len()
    } else if i == y.len() {
        assert(ys.len() == 0);
        false
    } else {
        assert(xs[0] == x@[i as int] && ys[0] == y@[i as int]);
        x[i] < y[i]
    }
}

proof fn lemma_insert_at(s: Seq<EntryView>, e: EntryView, j: int)
    requires
        0 <= j <= s.len(),
        forall|k: int| j <= k < s.len() ==> name_lt(e.name, #[trigger] s[k].name),
        j > 0 ==> !name_lt(e.name, s[j - 1].name),
    ensures
        insert_by_name(s, e) == s.take(j).push(e) + s.skip(j),
    decreases s.len(),
{
    if s.len() == 0 {
        assert(s.take(j).push(e) + s.skip(j) =~= seq![e]);
    } else if j == s.len() {
        assert(s.take(j).push(e) + s.skip(j) =~= s.push(e));
    } else {
        let d = s.drop_last();
        assert(name_lt(e.name, s[s.len() - 1].name));
        lemma_insert_at(d, e, j);
        assert(d.take(j).push(e) + d.skip(j) + seq![s.last()] =~= s.take(j).push(e) + s.skip(j));
    }
}

/// `a` does not sort after `b`.
pub open spec fn name_le(a: Seq<char>, b: Seq<char>) -> bool {
    !name_lt(b, a)
}

/// No entry sorts after a later one.
pub open spec fn sorted_names(s: Seq<EntryView>) -> bool {
    forall|i: int, j: int| 0 <= i < j < s.len() ==> name_le(#[trigger] s[i].name, #[trigger] s[j].name)
}

proof fn lemma_bytes_lt_asym(a: Seq<u8>, b: Seq<u8>)
    ensures
        bytes_lt(a, b) ==> !bytes_lt(b, a),
    decreases a.len(),
{
    if a.len() > 0 && b.len() > 0 && a[0] == b[0] {
        lemma_bytes_lt_asym(a.skip(1), b.skip(1));
    }
}

proof fn lemma_bytes_lt_trans(a: Seq<u8>, b: Seq<u8>, c: Seq<u8>)
    ensures
        bytes_lt(a, b) && bytes_lt(b, c) ==> bytes_lt(a, c),
    decreases a.len(),
{
    if a.len() > 0 && b.len() > 0 && c.len() > 0 && a[0] == b[0] && b[0] == c[0] {
        lemma_bytes_lt_trans(a.skip(1), b.skip(1), c.skip(1));
    }
}

proof fn lemma_bytes_lt_total(a: Seq<u8>, b: Seq<u8>)
    ensures
        !bytes_lt(a, b) && !bytes_lt(b, a) ==> a == b,
    decreases a.len(),
{
    if a.len() > 0 && b.len() > 0 && a[0] == b[0] {
        lemma_bytes_lt_total(a.skip(1), b.skip(1));
        if !bytes_lt(a, b) && !bytes_lt(b, a) {
            assert(a =~= seq![a[0]] + a.skip(1));
            assert(b =~= seq![b[0]] + b.skip(1));
        }
    } else if a.len() == 0 && b.len() == 0 {
        assert(a =~= b);
    }
}

proof fn lemma_name_order(x: Seq<char>, y: Seq<char>, z: Seq<char>)
    ensures
        name_lt(x, y) ==> name_le(x, y),
        name_le(x, y) && name_le(y, z) ==> name_le(x, z),
        name_lt(x, y) && name_le(y, z) ==> name_lt(x, z),
        name_le(x, y) && name_lt(y, z) ==> name_lt(x, z),
{
    let (a, b, c) = (encode_utf8(x), encode_utf8(y), encode_utf8(z));
    lemma_bytes_lt_asym(a, b);
    lemma_bytes_lt_total(a, b);
    lemma_bytes_lt_total(b, c);
    lemma_bytes_lt_trans(c, a, b);
    lemma_bytes_lt_trans(b, c, a);
    lemma_bytes_lt_trans(a, b, c);
}

/// Where `insert_by_name` puts `e`: after the last entry it does not sort
/// before.
pub open spec fn insert_position(s: Seq<EntryView>, e: EntryView) -> int
    decreases s.len(),
{
    if s.len() == 0 || !name_lt(e.name, s.last().name) {
        s.len() as int
    } else {
        insert_position(s.drop_last(), e)
    }
}

proof fn lemma_insert_position(s: Seq<EntryView>, e: EntryView)
    ensures
        0 <= insert_position(s, e) <= s.len(),
        forall|k: int| insert_position(s, e) <= k < s.len() ==> name_lt(e.name, #[trigger] s[k].name),
        insert_position(s, e) > 0 ==> !name_lt(e.name, s[insert_position(s, e) - 1].name),
    decreases s.len(),
{
    if s.len() > 0 && name_lt(e.name, s.last().name) {
        let d = s.drop_last();
        lemma_insert_position(d, e);
        assert forall|k: int| insert_position(s, e) <= k < s.len() implies name_lt(
            e.name,
            #[trigger] s[k].name,
        ) by {
            if k < d.len() {
                assert(s[k] == d[k]);
            }
        }
    }
}

proof fn lemma_insert_sorted(s: Seq<EntryView>, e: EntryView)
    requires
        sorted_names(s),
    ensures
        sorted_names(insert_by_name(s, e)),
{
    lemma_insert_position(s, e);
    let j = insert_position(s, e);
    lemma_insert_at(s, e, j);
    let r = insert_by_name(s, e);
    assert forall|a: int, b: int| 0 <= a < b < r.len() implies name_le(
        #[trigger] r[a].name,
        #[trigger] r[b].name,
    ) by {
        if b < j {
            assert(r[a] == s[a] && r[b] == s[b]);
        } else if b == j {
            assert(r[a] == s[a] && r[b] == e);
            assert(name_le(s[j - 1].name, e.name));
            if a < j - 1 {
                lemma_name_order(s[a].name, s[j - 1].name, e.name);
            }
        } else if a < j {
            assert(r[a] == s[a] && r[b] == s[b - 1]);
        } else if a == j {
            assert(r[a] == e && r[b] == s[b - 1]);
            lemma_name_order(e.name, s[b - 1].name, s[b - 1].name);
        } else {
            assert(r[a] == s[a - 1] && r[b] == s[b - 1]);
        }
    }
}

proof fn lemma_insert_multiset(s: Seq<EntryView>, e: EntryView)
    ensures
        insert_by_name(s, e).to_multiset() == s.to_multiset().insert(e),
    decreases s.len(),
{
    broadcast use vstd::seq_lib::group_to_multiset_ensures;

    if s.len() > 0 && name_lt(e.name, s.last().name) {
        let d = s.drop_last();
        lemma_insert_multiset(d, e);
        assert(s =~= d.push(s.last()));
        assert(insert_by_name(s, e).to_multiset() =~= s.to_multiset().insert(e));
    } else if s.len() == 0 {
        assert(seq![e] =~= s.push(e));
    }
}

proof fn lemma_sorted_by_name(s: Seq<EntryView>)
    ensures
        sorted_names(sorted_by_name(s)),
        sorted_by_name(s).to_multiset() == s.to_multiset(),
    decreases s.len(),
{
    broadcast use vstd::seq_lib::group_to_multiset_ensures;

    if s.len() > 0 {
        let d = s.drop_last();
        lemma_sorted_by_name(d);
        lemma_insert_sorted(sorted_by_name(d), s.last());
        lemma_insert_multiset(sorted_by_name(d), s.last());
        assert(s =~= d.push(s.last()));
    }
}

proof fn lemma_listed_entries(raw: Seq<RawEntry>)
    ensures
        forall|k: int|
            0 <= k < listed_entries(raw).len() ==> !is_hidden(#[trigger] listed_entries(raw)[k].name),
        forall|k: int|
            0 <= k < listed_entries(raw).len() && #[trigger] listed_entries(raw)[k].kind
                == EntryKind::Directory ==> listed_entries(raw)[k].size == 0,
    decreases raw.len(),
{
    if raw.len() > 0 {
        lemma_listed_entries(raw.drop_last());
    }
}

proof fn lemma_listed_child_in_entries(raw: Seq<RawEntry>, i: int)
    requires
        0 <= i < raw.len(),
        is_listed(raw[i]),
    ensures
        listed_entries(raw).contains(
            entry_of(raw[i].name@, raw[i].meta.unwrap(), mtime_text(raw[i].meta.unwrap())),
        ),
    decreases raw.len(),
{
    let init = raw.drop_last();
    let e = entry_of(raw[i].name@, raw[i].meta.unwrap(), mtime_text(raw[i].meta.unwrap()));
    if i == raw.len() - 1 {
        let l = listed_entries(raw);
        assert(l[l.len() - 1] == e);
    } else {
        assert(init[i] == raw[i]);
        lemma_listed_child_in_entries(init, i);
        let l0 = listed_entries(init);
        let k = choose|k: int| 0 <= k < l0.len() && l0[k] == e;
        assert(listed_entries(raw)[k] == e);
    }
}

/// Every child that is not a dotfile and whose metadata could be read is in
/// the listing, with its entry: the listing is made afresh from the children
/// it is given, and leaves out no other one.
pub proof fn lemma_readable_child_listed(raw: Seq<RawEntry>, i: int)
    requires
        0 <= i < raw.len(),
        is_listed(raw[i]),
    ensures
        sorted_by_name(listed_entries(raw)).contains(
            entry_of(raw[i].name@, raw[i].meta.unwrap(), mtime_text(raw[i].meta.unwrap())),
        ),
{
    broadcast use vstd::seq_lib::group_to_multiset_ensures;

    let l = listed_entries(raw);
    let e = entry_of(raw[i].name@, raw[i].meta.unwrap(), mtime_text(raw[i].meta.unwrap()));
    lemma_listed_child_in_entries(raw, i);
    lemma_sorted_by_name(l);
    l.to_multiset_ensures();
    sorted_by_name(l).to_multiset_ensures();
    assert(l.to_multiset().count(e) > 0);
}


/// A child is left out of the listing only when its name starts with `.` or
/// its metadata could not be read: every child whose name does not start
/// with `.` and whose metadata was read is listed, with its entry; and every
/// entry of the listing is that of such a child.
pub proof fn lemma_listing_leaves_out_only_dotfiles_and_unreadable(raw: Seq<RawEntry>, i: int)
    requires
        0 <= i < raw.len(),
    ensures
        !(raw[i].name@.len() > 0 && raw[i].name@[0] == '.') && raw[i].meta is Some ==> {
            let l = sorted_by_name(listed_entries(raw));
            let m = raw[i].meta.unwrap();
            exists|k: int|
                0 <= k < l.len() && #[trigger] l[k].name == raw[i].name@ && l[k].kind == (if m.is_dir {
                    EntryKind::Directory
                } else {
                    EntryKind::File
                }) && l[k].size == (if m.is_dir {
                    0
                } else {
                    m.len
                }) && l[k].mtime == match m.modified {
                    Some(ModTime::SinceEpoch(secs)) => http_date_text(secs),
                    _ => Seq::<char>::empty(),
                }
        },
        forall|k: int|
            0 <= k < sorted_by_name(listed_entries(raw)).len() ==> exists|j: int|
                0 <= j < raw.len() && !(raw[j].name@.len() > 0 && raw[j].name@[0] == '.')
                    && raw[j].meta is Some && #[trigger] sorted_by_name(listed_entries(raw))[k]
                    == entry_of(raw[j].name@, raw[j].meta.unwrap(), mtime_text(raw[j].meta.unwrap())),
{
    broadcast use vstd::seq_lib::group_to_multiset_ensures;

    let l = listed_entries(raw);
    let r = sorted_by_name(l);
    if !(raw[i].name@.len() > 0 && raw[i].name@[0] == '.') && raw[i].meta is Some {
        lemma_readable_child_listed(raw, i);
        let e = entry_of(raw[i].name@, raw[i].meta.unwrap(), mtime_text(raw[i].meta.unwrap()));
        let k = choose|k: int| 0 <= k < r.len() && r[k] == e;
        assert(r[k].name == raw[i].name@);
    }
    lemma_sorted_by_name(l);
    lemma_listed_entries_come_from_children(raw);
    assert forall|k: int| 0 <= k < r.len() implies exists|j: int|
        0 <= j < raw.len() && !(raw[j].name@.len() > 0 && raw[j].name@[0] == '.')
            && raw[j].meta is Some && #[trigger] r[k] == entry_of(
            raw[j].name@,
            raw[j].meta.unwrap(),
            mtime_text(raw[j].meta.unwrap()),
        ) by {
        l.to_multiset_ensures();
        r.to_multiset_ensures();
        assert(r.contains(r[k]));
        assert(r.to_multiset().count(r[k]) > 0);
        assert(l.to_multiset().count(r[k]) > 0);
        let m = choose|m: int| 0 <= m < l.len() && l[m] == r[k];
        let j = choose|j: int|
            0 <= j < raw.len() && is_listed(raw[j]) && #[trigger] l[m] == entry_of(
                raw[j].name@,
                raw[j].meta.unwrap(),
                mtime_text(raw[j].meta.unwrap()),
            );
        assert(l[m] == entry_of(raw[j].name@, raw[j].meta.unwrap(), mtime_text(raw[j].meta.unwrap())));
    }
}

proof fn lemma_listed_entries_come_from_children(raw: Seq<RawEntry>)
    ensures
        forall|m: int|
            0 <= m < listed_entries(raw).len() ==> exists|j: int|
                0 <= j < raw.len() && is_listed(raw[j]) && #[trigger] listed_entries(raw)[m]
                    == entry_of(raw[j].name@, raw[j].meta.unwrap(), mtime_text(raw[j].meta.unwrap())),
    decreases raw.len(),
{
    if raw.len() > 0 {
        let init = raw.drop_last();
        lemma_listed_entries_come_from_children(init);
        let l = listed_entries(raw);
        let l0 = listed_entries(init);
        assert forall|m: int| 0 <= m < l.len() implies exists|j: int|
            0 <= j < raw.len() && is_listed(raw[j]) && #[trigger] l[m] == entry_of(
                raw[j].name@,
                raw[j].meta.unwrap(),
                mtime_text(raw[j].meta.unwrap()),
            ) by {
            if m < l0.len() {
                let j = choose|j: int|
                    0 <= j < init.len() && is_listed(init[j]) && #[trigger] l0[m] == entry_of(
                        init[j].name@,
                        init[j].meta.unwrap(),
                        mtime_text(init[j].meta.unwrap()),
                    );
                assert(init[j] == raw[j]);
                assert(l[m] == l0[m]);
            } else {
                let j = raw.len() - 1;
                assert(l[m] == entry_of(raw[j].name@, raw[j].meta.unwrap(), mtime_text(raw[j].meta.unwrap())));
            }
        }
    }
}

/// The listing of a directory is sorted by name, holds exactly the entries of
/// its listed children (each once), shows no dotfile, and gives directories
/// size 0.
pub proof fn lemma_listing_laws(raw: Seq<RawEntry>)
    ensures
        sorted_names(sorted_by_name(listed_entries(raw))),
        sorted_by_name(listed_entries(raw)).to_multiset() == listed_entries(raw).to_multiset(),
        forall|k: int|
            0 <= k < sorted_by_name(listed_entries(raw)).len() ==> !is_hidden(
                #[trigger] sorted_by_name(listed_entries(raw))[k].name,
            ),
        forall|k: int|
            0 <= k < sorted_by_name(listed_entries(raw)).len() && #[trigger] sorted_by_name(
                listed_entries(raw),
            )[k].kind == EntryKind::Directory ==> sorted_by_name(listed_entries(raw))[k].size == 0,
{
    broadcast use vstd::seq_lib::group_to_multiset_ensures;

    let l = listed_entries(raw);
    let r = sorted_by_name(l);
    lemma_sorted_by_name(l);
    lemma_listed_entries(raw);
    assert forall|k: int| 0 <= k < r.len() implies !is_hidden(#[trigger] r[k].name) && (r[k].kind
        == EntryKind::Directory ==> r[k].size == 0) by {
        l.to_multiset_ensures();
        r.to_multiset_ensures();
        assert(r.contains(r[k]));
        assert(r.to_multiset().count(r[k]) > 0);
        assert(l.to_multiset().count(r[k]) > 0);
        assert(l.contains(r[k]));
        let m = choose|m: int| 0 <= m < l.len() && l[m] == r[k];
        assert(!is_hidden(l[m].name));
        assert(l[m].kind == EntryKind::Directory ==> l[m].size == 0);
    }
    assert forall|k: int| 0 <= k < r.len() && #[trigger] r[k].kind == EntryKind::Directory implies r[k].size == 0 by {
        assert(!is_hidden(r[k].name));
    }
}

/// Inserts `e` into `out` as `insert_by_name` does.
fn insert_entry(out: &mut Vec<DirEntry>, e: DirEntry)
    ensures
        entries_view(final(out)@) == insert_by_name(entries_view(old(out)@), e@),
{
    let mut j = out.len();
    while j > 0 && name_less(&e.name, &out[j - 1].name)
        invariant
            j <= out@.len(),
            out@ == old(out)@,
            forall|k: int| j <= k < out@.len() ==> name_lt(e@.name, #[trigger] out@[k]@.name),
        decreases j,
    {
        j = j - 1;
    }
    let ghost s = entries_view(out@);
    proof {
        lemma_insert_at(s, e@, j as int);
    }
    let ghost ev = e@;
    out.insert(j, e);
    assert(entries_view(out@) =~= s.take(j as int).push(ev) + s.skip(j as int));
}

/// The elements of `v` in reverse order, so that popping them hands them out
/// front first.
fn reversed<T>(v: Vec<T>) -> (r: Vec<T>)
    ensures
        r@.len() == v@.len(),
        forall|k: int| 0 <= k < r@.len() ==> #[trigger] r@[k] == v@[v@.len() - 1 - k],
{
    let ghost orig = v@;
    let mut v = v;
    let mut r: Vec<T> = Vec::new();
    while v.len() > 0
        invariant
            v@ == orig.take(v@.len() as int),
            r@.len() + v@.len() == orig.len(),
            forall|k: int| 0 <= k < r@.len() ==> #[trigger] r@[k] == orig[orig.len() - 1 - k],
        decreases v@.len(),
    {
        let ghost before = v@;
        match v.pop() {
            Some(x) => {
                assert(x == orig[before.len() - 1]);
                r.push(x);
                assert(v@ =~= orig.take(v@.len() as int));
            },
            None => {},
        }
    }
    r
}

/// Sorts entries by name, stably.
pub fn sort_by_name(entries: Vec<DirEntry>) -> (r: Vec<DirEntry>)
    ensures
        entries_view(r@) == sorted_by_name(entries_view(entries@)),
{
    let mut out: Vec<DirEntry> = Vec::new();
    let ghost all = entries_view(entries@);
    let ghost n: int = all.len() as int;
    let mut rest = reversed(entries);
    assert(all.take(0) =~= Seq::<EntryView>::empty());
    while rest.len() > 0
        invariant
            n == all.len(),
            rest@.len() <= n,
            forall|k: int| 0 <= k < rest@.len() ==> #[trigger] rest@[k]@ == all[n - 1 - k],
            entries_view(out@) == sorted_by_name(all.take(n - rest@.len())),
        decreases rest@.len(),
    {
        let ghost taken = n - rest@.len();
        let e = rest.pop().unwrap();
        proof {
            assert(e@ == all[taken]);
            assert(all.take(taken + 1).drop_last() =~= all.take(taken));
            assert(all.take(taken + 1).last() == all[taken]);
        }
        insert_entry(&mut out, e);
    }
    assert(all.take(n) =~= all);
    out
}

/// The listing entry of a child, given the text of its modification time.
pub fn listing_entry(name: String, meta: RawMeta, mtime: String) -> (r: DirEntry)
    ensures
        r@ == entry_of(name@, meta, mtime@),
{
    DirEntry {
        name,
        kind: if meta.is_dir {
            EntryKind::Directory
        } else {
            EntryKind::File
        },
        mtime,
        size: if meta.is_dir {
            0
        } else {
            meta.len
        },
    }
}

/// Whether a name is a dotfile's.
fn hidden_name(name: &String) -> (b: bool)
    ensures
        b == is_hidden(name@),
{
    if name.as_str().is_empty() {
        false
    } else {
        name.as_str().get_char(0) == '.'
    }
}

/// Whether every listed child has a modification time `httpdate` can
/// format, which `directory_listing` requires.
pub fn dates_formattable_check(raw: &Vec<RawEntry>) -> (b: bool)
    ensures
        b == dates_formattable(raw@),
{
    let n = raw.len();
    for i in 0..n
        invariant
            n == raw@.len(),
            forall|k: int| 0 <= k < i && is_listed(#[trigger] raw@[k]) ==> date_formattable(
                raw@[k].meta.unwrap(),
            ),
    {
        if !hidden_name(&raw[i].name) {
            if let Some(m) = raw[i].meta {
                let ok = match m.modified {
                    None => true,
                    Some(ModTime::SinceEpoch(s)) => s < HTTP_DATE_LIMIT,
                    Some(ModTime::BeforeEpoch) => false,
                };
                if !ok {
                    assert(is_listed(raw@[i as int]));
                    return false;
                }
            }
        }
    }
    true
}

/// The JSON listing of a directory from its children as read: dotfiles and
/// children whose metadata could not be read are left out, directories get
/// size 0, modification times become HTTP dates (empty when unknown), and
/// the entries are sorted by name.
pub fn directory_listing(raw: Vec<RawEntry>) -> (r: Vec<DirEntry>)
    requires
        dates_formattable(raw@),
    ensures
        entries_view(r@) == sorted_by_name(listed_entries(raw@)),
{
    let ghost all = raw@;
    let ghost n: int = all.len() as int;
    let mut rest = reversed(raw);
    let mut entries: Vec<DirEntry> = Vec::new();
    assert(all.take(0) =~= Seq::<RawEntry>::empty());
    while rest.len() > 0
        invariant
            n == all.len(),
            rest@.len() <= n,
            forall|k: int| 0 <= k < rest@.len() ==> #[trigger] rest@[k] == all[n - 1 - k],
            dates_formattable(all),
            entries_view(entries@) == listed_entries(all.take(n - rest@.len())),
        decreases rest@.len(),
    {
        let ghost taken = n - rest@.len();
        let e = rest.pop().unwrap();
        proof {
            assert(e == all[taken]);
            assert(all.take(taken + 1).drop_last() =~= all.take(taken));
            assert(all.take(taken + 1).last() == all[taken]);
        }
        let RawEntry { name, meta } = e;
        if !hidden_name(&name) {
            match meta {
                None => {},
                Some(m) => {
                    proof {
                        assert(is_listed(all[taken]));
                    }
                    let mtime = match m.modified {
                        Some(ModTime::SinceEpoch(s)) => fmt_http_date(s),
                        _ => String::new(),
                    };
                    let entry = listing_entry(name, m, mtime);
                    let ghost before = entries_view(entries@);
                    let ghost ev = entry@;
                    entries.push(entry);
                    assert(entries_view(entries@) =~= before.push(ev));
                },
            }
        }
    }
    assert(all.take(n) =~= all);
    sort_by_name(entries)
}

} // verus!
