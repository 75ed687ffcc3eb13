//! Asset lookup: the embedded asset table, path normalisation, and the order
//! in which the disk copy and the embedded copies of an asset are consulted.
use vstd::prelude::*;
use vstd::utf8::{decode_utf8, valid_utf8};

use crate::text::{chars_of, copy_str, starts_with_chars, str_eq, string_of_range, utf8_text};

verus! {

// ---------------------------------------------------------------------------
// Path normalisation
// ---------------------------------------------------------------------------

/// `path` with every backslash turned into a forward slash.
pub open spec fn forward_slashes(path: Seq<char>) -> Seq<char> {
    path.map_values(|c: char| if c == '\\' { '/' } else { c })
}

/// `s` without its leading forward slashes.
pub open spec fn trim_leading_slashes(s: Seq<char>) -> Seq<char>
    decreases s.len(),
{
    if s.len() > 0 && s[0] == '/' {
        trim_leading_slashes(s.drop_first())
    } else {
        s
    }
}

/// The directory prefix that embedded asset names do not carry.
pub open spec fn assets_dir() -> Seq<char> {
    seq!['a', 's', 's', 'e', 't', 's', '/']
}

/// `path` with forward slashes and no leading slash.
pub open spec fn trimmed_path(path: Seq<char>) -> Seq<char> {
    trim_leading_slashes(forward_slashes(path))
}

/// The name of `path` relative to the asset directory: forward slashes, no
/// leading slash, and one leading `assets/` removed.
pub open spec fn relative_asset_path(path: Seq<char>) -> Seq<char> {
    let t = trimmed_path(path);
    if t.len() >= 7 && t.subrange(0, 7) == assets_dir() {
        t.subrange(7, t.len() as int)
    } else {
        t
    }
}

/// The names under which an asset is looked up in the embedded table, in
/// order: the relative name, the trimmed path, the path as given.
pub open spec fn asset_candidates(path: Seq<char>) -> Seq<Seq<char>> {
    seq![relative_asset_path(path), trimmed_path(path), path]
}

/// The trimmed path is `s[k..]` for the index `k` of the first character
/// that is not a slash.
proof fn lemma_trim_skips(s: Seq<char>, k: int)
    requires
        0 <= k <= s.len(),
        forall|j: int| 0 <= j < k ==> s[j] == '/',
        k == s.len() || s[k] != '/',
    ensures
        trim_leading_slashes(s) == s.subrange(k, s.len() as int),
    decreases k,
{
    if k == 0 {
        assert(s.subrange(0, s.len() as int) =~= s);
    } else {
        lemma_trim_skips(s.drop_first(), k - 1);
        assert(s.drop_first().subrange(k - 1, s.len() - 1) =~= s.subrange(k, s.len() as int));
    }
}

/// The characters of `path` with backslashes replaced by slashes.
fn forward_slash_chars(path: &str) -> (v: Vec<char>)
    ensures
        v@ == forward_slashes(path@),
{
    let chars = chars_of(path);
    let mut v: Vec<char> = Vec::new();
    let mut i: usize = 0;
    while i < chars.len()
        invariant
            i <= chars.len(),
            chars@ == path@,
            v@ =~= forward_slashes(path@).subrange(0, i as int),
        decreases chars.len() - i,
    {
        let c = chars[i];
        v.push(if c == '\\' { '/' } else { c });
        i = i + 1;
    }
    assert(forward_slashes(path@).subrange(0, i as int) =~= forward_slashes(path@));
    v
}

/// Index of the first character of `v` that is not a slash (`v.len()` if none).
fn first_non_slash(v: &Vec<char>) -> (k: usize)
    ensures
        k <= v.len(),
        trim_leading_slashes(v@) == v@.subrange(k as int, v.len() as int),
{
    let mut k: usize = 0;
    while k < v.len() && v[k] == '/'
        invariant
            k <= v.len(),
            forall|j: int| 0 <= j < k ==> v@[j] == '/',
        decreases v.len() - k,
    {
        k = k + 1;
    }
    proof {
        lemma_trim_skips(v@, k as int);
    }
    k
}

fn assets_dir_chars() -> (v: Vec<char>)
    ensures
        v@ == assets_dir(),
{
    let v = vec!['a', 's', 's', 'e', 't', 's', '/'];
    assert(v@ =~= assets_dir());
    v
}

/// The path with forward slashes and without leading slashes.
pub fn trim_asset_path(path: &str) -> (r: String)
    ensures
        r@ == trimmed_path(path@),
{
    let v = forward_slash_chars(path);
    let k = first_non_slash(&v);
    string_of_range(&v, k, v.len())
}

/// The asset's name relative to the asset directory (`assets\\x`,
/// `/assets/x` and `x` all give `x`).
pub fn normalize_asset_path(path: &str) -> (r: String)
    ensures
        r@ == relative_asset_path(path@),
{
    let v = forward_slash_chars(path);
    let k = first_non_slash(&v);
    let prefix = assets_dir_chars();
    let ghost t = v@.subrange(k as int, v.len() as int);
    if starts_with_chars(&v, k, &prefix) {
        assert(t.subrange(0, 7) =~= v@.subrange(k as int, k + 7));
        assert(t.subrange(7, t.len() as int) =~= v@.subrange(k + 7, v.len() as int));
        string_of_range(&v, k + 7, v.len())
    } else {
        proof {
            if t.len() >= 7 {
                assert(t.subrange(0, 7) =~= v@.subrange(k as int, k + 7));
            }
        }
        string_of_range(&v, k, v.len())
    }
}

/// The names tried in the embedded table for `path`, in order.
pub fn lookup_candidates(path: &str) -> (r: Vec<String>)
    ensures
        r.len() == 3,
        forall|i: int| 0 <= i < 3 ==> #[trigger] r@[i]@ == asset_candidates(path@)[i],
{
    let mut r: Vec<String> = Vec::new();
    r.push(normalize_asset_path(path));
    r.push(trim_asset_path(path));
    r.push(copy_str(path));
    r
}

// ---------------------------------------------------------------------------
// The embedded asset table
// ---------------------------------------------------------------------------

/// The assets compiled into the binary: file names relative to the asset
/// directory, each with its bytes. A name occurs at most once.
pub struct EmbeddedAssets {
    files: Vec<(String, Vec<u8>)>,
}

impl View for EmbeddedAssets {
    type V = Map<Seq<char>, Seq<u8>>;

    closed spec fn view(&self) -> Map<Seq<char>, Seq<u8>> {
        Map::new(
            |name: Seq<char>| exists|i: int| 0 <= i < self.files.len() && #[trigger] self.files@[i].0@ == name,
            |name: Seq<char>| self.files@[choose|i: int| 0 <= i < self.files.len() && #[trigger] self.files@[i].0@ == name].1@,
        )
    }
}

impl EmbeddedAssets {
    /// No two entries share a name.
    pub closed spec fn wf(&self) -> bool {
        forall|i: int, j: int| 0 <= i < j < self.files.len() ==> #[trigger] self.files@[i].0@ != #[trigger] self.files@[j].0@
    }

    /// An empty table.
    pub fn new() -> (r: Self)
        ensures
            r.wf(),
            r@ == Map::<Seq<char>, Seq<u8>>::empty(),
    {
        let r = EmbeddedAssets { files: Vec::new() };
        assert(r@ =~= Map::<Seq<char>, Seq<u8>>::empty());
        r
    }

    /// Index of the entry named `name`, if any.
    fn position(&self, name: &str) -> (r: Option<usize>)
        requires
            self.wf(),
        ensures
            r is None ==> !self@.contains_key(name@),
            r matches Some(i) ==> i < self.files.len() && self.files@[i as int].0@ == name@,
    {
        let mut i: usize = 0;
        while i < self.files.len()
            invariant
                i <= self.files.len(),
                forall|j: int| 0 <= j < i ==> #[trigger] self.files@[j].0@ != name@,
            decreases self.files.len() - i,
        {
            if str_eq(self.files[i].0.as_str(), name) {
                return Some(i);
            }
            i = i + 1;
        }
        None
    }

    proof fn lemma_entry(&self, i: int)
        requires
            self.wf(),
            0 <= i < self.files.len(),
        ensures
            self@.contains_key(self.files@[i].0@),
            self@[self.files@[i].0@] == self.files@[i].1@,
    {
        let name = self.files@[i].0@;
        assert(self@.contains_key(name));
        let k = choose|k: int| 0 <= k < self.files.len() && #[trigger] self.files@[k].0@ == name;
        if k != i {
            if k < i {
                assert(self.files@[k].0@ != self.files@[i].0@);
            } else {
                assert(self.files@[i].0@ != self.files@[k].0@);
            }
        }
    }

    /// Adds a file, replacing an earlier one of the same name.
    pub fn insert(&mut self, name: String, data: Vec<u8>)
        requires
            old(self).wf(),
        ensures
            final(self).wf(),
            final(self)@ == old(self)@.insert(name@, data@),
    {
        let ghost name_v = name@;
        let ghost data_v = data@;
        match self.position(name.as_str()) {
            Some(i) => {
                let ghost before = self.files@;
                self.files.set(i, (name, data));
                proof {
                    assert forall|a: int, b: int| 0 <= a < b < self.files.len() implies #[trigger] self.files@[a].0@ != #[trigger] self.files@[b].0@ by {
                        assert(before[a].0@ != before[b].0@);
                        if a == i {
                            assert(before[i as int].0@ == name_v);
                        }
                        if b == i {
                            assert(before[i as int].0@ == name_v);
                        }
                    }
                    assert forall|k: Seq<char>| #[trigger] self@.contains_key(k) <==> old(self)@.insert(name_v, data_v).contains_key(k) by {
                        if old(self)@.contains_key(k) {
                            let j = choose|j: int| 0 <= j < before.len() && #[trigger] before[j].0@ == k;
                            assert(self.files@[j].0@ == k || j == i);
                            if j == i {
                                assert(self.files@[i as int].0@ == name_v);
                            }
                        }
                        if self@.contains_key(k) {
                            let j = choose|j: int| 0 <= j < self.files.len() && #[trigger] self.files@[j].0@ == k;
                            if j != i {
                                assert(before[j].0@ == k);
                            }
                        }
                    }
                    assert forall|k: Seq<char>| #[trigger] self@.contains_key(k) implies self@[k] == old(self)@.insert(name_v, data_v)[k] by {
                        let j = choose|j: int| 0 <= j < self.files.len() && #[trigger] self.files@[j].0@ == k;
                        self.lemma_entry(j);
                        if j != i {
                            assert(before[j].0@ == k);
                            old(self).lemma_entry(j);
                        }
                    }
                    assert(self@ =~= old(self)@.insert(name_v, data_v));
                }
            },
            None => {
                let ghost before = self.files@;
                self.files.push((name, data));
                proof {
                    assert forall|a: int, b: int| 0 <= a < b < self.files.len() implies #[trigger] self.files@[a].0@ != #[trigger] self.files@[b].0@ by {
                        if b == before.len() {
                            assert(old(self).files@[a].0@ != name_v);
                        } else {
                            assert(before[a].0@ != before[b].0@);
                        }
                    }
                    assert forall|k: Seq<char>| #[trigger] self@.contains_key(k) <==> old(self)@.insert(name_v, data_v).contains_key(k) by {
                        if old(self)@.contains_key(k) {
                            let j = choose|j: int| 0 <= j < before.len() && #[trigger] before[j].0@ == k;
                            assert(self.files@[j].0@ == k);
                        }
                        if k == name_v {
                            assert(self.files@[before.len() as int].0@ == k);
                        }
                        if self@.contains_key(k) {
                            let j = choose|j: int| 0 <= j < self.files.len() && #[trigger] self.files@[j].0@ == k;
                            if j < before.len() {
                                assert(before[j].0@ == k);
                            }
                        }
                    }
                    assert forall|k: Seq<char>| #[trigger] self@.contains_key(k) implies self@[k] == old(self)@.insert(name_v, data_v)[k] by {
                        let j = choose|j: int| 0 <= j < self.files.len() && #[trigger] self.files@[j].0@ == k;
                        self.lemma_entry(j);
                        if j < before.len() {
                            assert(before[j].0@ == k);
                            old(self).lemma_entry(j);
                        }
                    }
                    assert(self@ =~= old(self)@.insert(name_v, data_v));
                }
            },
        }
    }

    /// The bytes of the file named `name`.
    pub fn get(&self, name: &str) -> (r: Option<Vec<u8>>)
        requires
            self.wf(),
        ensures
            r is Some <==> self@.contains_key(name@),
            r matches Some(d) ==> d@ == self@[name@],
    {
        match self.position(name) {
            Some(i) => {
                proof {
                    self.lemma_entry(i as int);
                }
                Some(self.files[i].1.clone())
            },
            None => None,
        }
    }
}

// ---------------------------------------------------------------------------
// Resolution order
// ---------------------------------------------------------------------------

/// The bytes of the first of `names` present in `table`.
pub open spec fn first_present(table: Map<Seq<char>, Seq<u8>>, names: Seq<Seq<char>>) -> Option<Seq<u8>>
    decreases names.len(),
{
    if names.len() == 0 {
        None
    } else if table.contains_key(names[0]) {
        Some(table[names[0]])
    } else {
        first_present(table, names.drop_first())
    }
}

/// The text of the first of `names` present in `table` as valid UTF-8.
pub open spec fn first_text(table: Map<Seq<char>, Seq<u8>>, names: Seq<Seq<char>>) -> Option<Seq<char>>
    decreases names.len(),
{
    if names.len() == 0 {
        None
    } else if table.contains_key(names[0]) && valid_utf8(table[names[0]]) {
        Some(decode_utf8(table[names[0]]))
    } else {
        first_text(table, names.drop_first())
    }
}

/// The embedded bytes of the asset at `path`.
pub open spec fn embedded_bytes(table: Map<Seq<char>, Seq<u8>>, path: Seq<char>) -> Option<Seq<u8>> {
    first_present(table, asset_candidates(path))
}

/// The embedded text of the asset at `path`.
pub open spec fn embedded_text(table: Map<Seq<char>, Seq<u8>>, path: Seq<char>) -> Option<Seq<char>> {
    first_text(table, asset_candidates(path))
}

pub open spec fn text_view(o: Option<String>) -> Option<Seq<char>> {
    match o {
        Some(s) => Some(s@),
        None => None,
    }
}

pub open spec fn bytes_view(o: Option<Vec<u8>>) -> Option<Seq<u8>> {
    match o {
        Some(v) => Some(v@),
        None => None,
    }
}

/// The text of an asset: what reading `path` from disk gave (`disk`) when
/// `disk_first` holds and the read succeeded (hot-reload builds); otherwise
/// the first embedded candidate that is valid UTF-8; otherwise `disk`.
pub open spec fn resolved_text(table: Map<Seq<char>, Seq<u8>>, path: Seq<char>, disk_first: bool, disk: Option<Seq<char>>) -> Option<Seq<char>> {
    if disk_first && disk is Some {
        disk
    } else if embedded_text(table, path) is Some {
        embedded_text(table, path)
    } else {
        disk
    }
}

/// The bytes of an asset, in the same order as [`resolved_text`] but without
/// the UTF-8 requirement.
pub open spec fn resolved_bytes(table: Map<Seq<char>, Seq<u8>>, path: Seq<char>, disk_first: bool, disk: Option<Seq<u8>>) -> Option<Seq<u8>> {
    if disk_first && disk is Some {
        disk
    } else if embedded_bytes(table, path) is Some {
        embedded_bytes(table, path)
    } else {
        disk
    }
}

impl EmbeddedAssets {
    /// The embedded text of the asset at `path`.
    pub fn text_of(&self, path: &str) -> (r: Option<String>)
        requires
            self.wf(),
        ensures
            text_view(r) == embedded_text(self@, path@),
    {
        let names = lookup_candidates(path);
        let ghost all = asset_candidates(path@);
        assert(all.subrange(0, 3) =~= all);
        let mut i: usize = 0;
        while i < 3
            invariant
                i <= 3,
                names.len() == 3,
                self.wf(),
                all == asset_candidates(path@),
                forall|k: int| 0 <= k < 3 ==> #[trigger] names@[k]@ == all[k],
                first_text(self@, all) == first_text(self@, all.subrange(i as int, 3)),
            decreases 3 - i,
        {
            let ghost rest = all.subrange(i as int, 3);
            assert(rest[0] == names@[i as int]@);
            assert(rest.drop_first() =~= all.subrange(i + 1, 3));
            if let Some(bytes) = self.get(names[i].as_str()) {
                if let Some(text) = utf8_text(bytes.as_slice()) {
                    return Some(text);
                }
            }
            i = i + 1;
        }
        assert(all.subrange(3, 3).len() == 0);
        None
    }

    /// The embedded bytes of the asset at `path`.
    pub fn bytes_of(&self, path: &str) -> (r: Option<Vec<u8>>)
        requires
            self.wf(),
        ensures
            bytes_view(r) == embedded_bytes(self@, path@),
    {
        let names = lookup_candidates(path);
        let ghost all = asset_candidates(path@);
        assert(all.subrange(0, 3) =~= all);
        let mut i: usize = 0;
        while i < 3
            invariant
                i <= 3,
                names.len() == 3,
                self.wf(),
                all == asset_candidates(path@),
                forall|k: int| 0 <= k < 3 ==> #[trigger] names@[k]@ == all[k],
                first_present(self@, all) == first_present(self@, all.subrange(i as int, 3)),
            decreases 3 - i,
        {
            let ghost rest = all.subrange(i as int, 3);
            assert(rest[0] == names@[i as int]@);
            assert(rest.drop_first() =~= all.subrange(i + 1, 3));
            if let Some(bytes) = self.get(names[i].as_str()) {
                return Some(bytes);
            }
            i = i + 1;
        }
        assert(all.subrange(3, 3).len() == 0);
        None
    }
}

/// The text of the asset at `path`, given the outcome of reading `path` from
/// disk: the disk copy first when `disk_first` (hot-reload builds), then the
/// embedded copies, then the disk copy.
pub fn load_asset_str(assets: &EmbeddedAssets, path: &str, disk_first: bool, disk: Option<String>) -> (r: Option<String>)
    requires
        assets.wf(),
    ensures
        text_view(r) == resolved_text(assets@, path@, disk_first, text_view(disk)),
{
    if disk_first && disk.is_some() {
        return disk;
    }
    match assets.text_of(path) {
        Some(t) => Some(t),
        None => disk,
    }
}

/// The bytes of the asset at `path`, in the same order as [`load_asset_str`].
pub fn load_asset_bytes(assets: &EmbeddedAssets, path: &str, disk_first: bool, disk: Option<Vec<u8>>) -> (r: Option<Vec<u8>>)
    requires
        assets.wf(),
    ensures
        bytes_view(r) == resolved_bytes(assets@, path@, disk_first, bytes_view(disk)),
{
    if disk_first && disk.is_some() {
        return disk;
    }
    match assets.bytes_of(path) {
        Some(b) => Some(b),
        None => disk,
    }
}

/// Where a script is run from.
pub enum ScriptLocation {
    /// The path as given, which exists on disk or has no embedded copy.
    AsGiven(String),
    /// The embedded copy, to be written out under its relative name.
    Extract { relative: String, data: Vec<u8> },
}

/// Decides how a script path reaches the script engine: a path that exists on
/// disk is used as given; otherwise the embedded copy under its relative name
/// is written out; otherwise the path is used as given.
pub fn prepare_script_path(assets: &EmbeddedAssets, path: &str, exists_on_disk: bool) -> (r: ScriptLocation)
    requires
        assets.wf(),
    ensures
        exists_on_disk ==> (r matches ScriptLocation::AsGiven(p) && p@ == path@),
        !exists_on_disk && assets@.contains_key(relative_asset_path(path@)) ==> (r matches ScriptLocation::Extract { relative, data } && relative@ == relative_asset_path(path@) && data@ == assets@[relative_asset_path(path@)]),
        !exists_on_disk && !assets@.contains_key(relative_asset_path(path@)) ==> (r matches ScriptLocation::AsGiven(p) && p@ == path@),
{
    if exists_on_disk {
        return ScriptLocation::AsGiven(copy_str(path));
    }
    let relative = normalize_asset_path(path);
    match assets.get(relative.as_str()) {
        Some(data) => ScriptLocation::Extract { relative, data },
        None => ScriptLocation::AsGiven(copy_str(path)),
    }
}

/// A source of text assets.
pub trait AssetLoader {
    fn load_text(&self, path: &str) -> Option<String>;
}

impl AssetLoader for EmbeddedAssets {
    /// The embedded text of the asset at `path` (nothing when the table is
    /// not well formed).
    fn load_text(&self, path: &str) -> (r: Option<String>)
        ensures
            self.wf() ==> text_view(r) == embedded_text(self@, path@),
    {
        if self.is_well_formed() {
            self.text_of(path)
        } else {
            None
        }
    }
}

impl EmbeddedAssets {
    /// Whether no name occurs twice (always so for a table built with
    /// [`EmbeddedAssets::new`] and [`EmbeddedAssets::insert`]).
    pub fn is_well_formed(&self) -> (b: bool)
        ensures
            b == self.wf(),
    {
        let mut i: usize = 0;
        while i < self.files.len()
            invariant
                i <= self.files.len(),
                forall|a: int, b: int| 0 <= a < b < i ==> #[trigger] self.files@[a].0@ != #[trigger] self.files@[b].0@,
            decreases self.files.len() - i,
        {
            let mut j: usize = 0;
            while j < i
                invariant
                    j <= i < self.files.len(),
                    forall|a: int| 0 <= a < j ==> #[trigger] self.files@[a].0@ != self.files@[i as int].0@,
                decreases i - j,
            {
                if str_eq(self.files[j].0.as_str(), self.files[i].0.as_str()) {
                    return false;
                }
                j = j + 1;
            }
            i = i + 1;
        }
        true
    }
}

/// Loads a text asset the way the running platform does (see
/// [`load_asset_str`]).
pub fn load_asset(assets: &EmbeddedAssets, path: &str, disk_first: bool, disk: Option<String>) -> (r: Option<String>)
    requires
        assets.wf(),
    ensures
        text_view(r) == resolved_text(assets@, path@, disk_first, text_view(disk)),
{
    load_asset_str(assets, path, disk_first, disk)
}

} // verus!
