//! Adding and removing a plugin dependency in a project's `Cargo.toml`
//! (`groot plugin add <name>` and `groot plugin remove <name>`).
use vstd::prelude::*;

use crate::text::{
    chars_of, contains, find, first_occurrence, index_of, lemma_first_occurrence_occurs, join, lemma_index_of, lines_of, occurs_at,
    push_str, split_lines, string_of, string_of_range, strip_cr,
};

verus! {

/// The package of plugin `name`: `groot-plugin-<name>`.
pub open spec fn plugin_package(name: Seq<char>) -> Seq<char> {
    "groot-plugin-"@ + name
}

/// The dependency line of plugin `name`:
/// `groot-plugin-<name> = { path = "../groot-plugin-<name>" }`.
pub open spec fn plugin_dependency_line(name: Seq<char>) -> Seq<char> {
    plugin_package(name) + " = { path = \"../"@ + plugin_package(name) + "\" }"@
}

/// The manifest after adding plugin `name`, or `None` when the manifest
/// already mentions its package. The dependency line goes, followed by a
/// blank line, before the first `[profile.dev]`; without one, it is appended
/// on a line of its own.
pub open spec fn added_manifest(manifest: Seq<char>, name: Seq<char>) -> Option<Seq<char>> {
    let line = plugin_dependency_line(name);
    if contains(manifest, plugin_package(name)) {
        None
    } else {
        match first_occurrence(manifest, "[profile.dev]"@) {
            Some(p) => Some(manifest.subrange(0, p) + line + "\n\n"@ + manifest.subrange(p, manifest.len() as int)),
            None => Some(manifest + "\n"@ + line + "\n"@),
        }
    }
}

/// The lines of `lines` that do not mention `key`, in order.
pub open spec fn lines_without(lines: Seq<Seq<char>>, key: Seq<char>) -> Seq<Seq<char>> {
    lines.filter(|l: Seq<char>| !contains(l, key))
}

/// The manifest after removing plugin `name`: its lines that do not mention
/// the plugin's package, joined with `\n`.
pub open spec fn removed_manifest(manifest: Seq<char>, name: Seq<char>) -> Seq<char> {
    join(lines_without(lines_of(manifest), plugin_package(name)), "\n"@)
}

/// The outcome of `groot plugin add`.
pub enum PluginAdd {
    /// The manifest already mentions the plugin's package.
    AlreadyInstalled,
    /// The new manifest.
    Added(String),
}

fn package_string(name: &str) -> (r: String)
    ensures
        r@ == plugin_package(name@),
{
    let mut r = crate::text::copy_str("groot-plugin-");
    push_str(&mut r, name);
    r
}

fn dependency_line(name: &str) -> (r: String)
    ensures
        r@ == plugin_dependency_line(name@),
{
    let package = package_string(name);
    let mut line = package_string(name);
    push_str(&mut line, " = { path = \"../");
    push_str(&mut line, package.as_str());
    push_str(&mut line, "\" }");
    line
}

/// Adds plugin `name` to the manifest text.
pub fn add_plugin_dependency(manifest: &str, name: &str) -> (r: PluginAdd)
    ensures
        match r {
            PluginAdd::AlreadyInstalled => added_manifest(manifest@, name@) is None,
            PluginAdd::Added(t) => added_manifest(manifest@, name@) == Some(t@),
        },
{
    let text = chars_of(manifest);
    let package = package_string(name);
    let package_chars = chars_of(package.as_str());
    if find(&text, &package_chars).is_some() {
        return PluginAdd::AlreadyInstalled;
    }
    let line = dependency_line(name);
    let section = chars_of("[profile.dev]");
    match find(&text, &section) {
        Some(p) => {
            let mut out = string_of_range(&text, 0, p);
            push_str(&mut out, line.as_str());
            push_str(&mut out, "\n\n");
            let tail = string_of_range(&text, p, text.len());
            push_str(&mut out, tail.as_str());
            PluginAdd::Added(out)
        },
        None => {
            let mut out = crate::text::copy_str(manifest);
            push_str(&mut out, "\n");
            push_str(&mut out, line.as_str());
            push_str(&mut out, "\n");
            PluginAdd::Added(out)
        },
    }
}

/// Removes plugin `name` from the manifest text.
pub fn remove_plugin_dependency(manifest: &str, name: &str) -> (r: String)
    ensures
        r@ == removed_manifest(manifest@, name@),
{
    let text = chars_of(manifest);
    let lines = split_lines(&text);
    let ghost ls = lines@.map_values(|l: Vec<char>| l@);
    let package = package_string(name);
    let key = chars_of(package.as_str());
    let ghost pred = |l: Seq<char>| !contains(l, plugin_package(name@));
    let mut out = String::new();
    let mut kept: usize = 0;
    let mut i: usize = 0;
    while i < lines.len()
        invariant
            i <= lines.len(),
            ls == lines@.map_values(|l: Vec<char>| l@),
            ls == lines_of(manifest@),
            key@ == plugin_package(name@),
            pred == (|l: Seq<char>| !contains(l, plugin_package(name@))),
            kept == ls.subrange(0, i as int).filter(pred).len(),
            out@ == join(ls.subrange(0, i as int).filter(pred), "\n"@),
        decreases lines.len() - i,
    {
        let ghost prefix = ls.subrange(0, i as int);
        let ghost next = ls.subrange(0, i + 1);
        assert(next.drop_last() =~= prefix);
        assert(next.last() == lines@[i as int]@);
        reveal_with_fuel(Seq::<_>::filter, 1);
        let hit = find(&lines[i], &key);
        if hit.is_none() {
            let l = string_of(&lines[i]);
            let ghost kept_before = prefix.filter(pred);
            assert(next.filter(pred) == kept_before.push(lines@[i as int]@));
            if kept > 0 {
                push_str(&mut out, "\n");
                let ghost k2 = kept_before.push(lines@[i as int]@);
                assert(k2.drop_last() =~= kept_before);
            } else {
                assert(kept_before.len() == 0);
                assert(out@ =~= Seq::<char>::empty());
            }
            push_str(&mut out, l.as_str());
            kept = kept + 1;
        } else {
            assert(!pred(lines@[i as int]@));
        }
        i = i + 1;
    }
    assert(ls.subrange(0, ls.len() as int) =~= ls);
    out
}

// ---------------------------------------------------------------------------
// Laws
// ---------------------------------------------------------------------------

/// A line of `str::lines` holds no `\n`.
pub proof fn lemma_lines_have_no_newline(s: Seq<char>)
    ensures
        forall|i: int, j: int| 0 <= i < lines_of(s).len() && 0 <= j < lines_of(s)[i].len() ==> lines_of(s)[i][j] != '\n',
    decreases s.len(),
{
    if s.len() > 0 {
        let k = index_of(s, '\n');
        lemma_index_of(s, '\n');
        if 0 <= k < s.len() {
            let rest = s.subrange(k + 1, s.len() as int);
            lemma_lines_have_no_newline(rest);
            let first = strip_cr(s.subrange(0, k));
            assert forall|i: int, j: int| 0 <= i < lines_of(s).len() && 0 <= j < lines_of(s)[i].len() implies lines_of(s)[i][j] != '\n' by {
                if i == 0 {
                    assert(lines_of(s)[0] == first);
                    assert(first[j] == s[j]);
                } else {
                    assert(lines_of(s)[i] == lines_of(rest)[i - 1]);
                }
            }
        } else {
            assert(lines_of(s) == seq![s]);
        }
    }
}

/// Joining parts with `\n` creates no occurrence of a key that holds no
/// `\n`, when no part holds the key or a `\n`.
proof fn lemma_join_avoids(parts: Seq<Seq<char>>, key: Seq<char>)
    requires
        key.len() > 0,
        forall|j: int| 0 <= j < key.len() ==> key[j] != '\n',
        forall|i: int| 0 <= i < parts.len() ==> !contains(#[trigger] parts[i], key),
        forall|i: int, j: int| 0 <= i < parts.len() && 0 <= j < parts[i].len() ==> parts[i][j] != '\n',
    ensures
        !contains(join(parts, "\n"@), key),
    decreases parts.len(),
{
    if parts.len() == 1 {
        assert(!contains(parts[0], key));
    } else if parts.len() >= 2 {
        let front = parts.drop_last();
        let last = parts.last();
        assert(forall|i: int| 0 <= i < front.len() ==> front[i] == parts[i]);
        lemma_join_avoids(front, key);
        let jf = join(front, "\n"@);
        let whole = join(parts, "\n"@);
        reveal_strlit("\n");
        assert(whole == jf + "\n"@ + last);
        assert(!contains(last, key)) by {
            assert(last == parts[parts.len() - 1]);
        }
        assert forall|p: int| !occurs_at(whole, key, p) by {
            if occurs_at(whole, key, p) {
                let l = jf.len() as int;
                if p + key.len() <= l {
                    assert(jf.subrange(p, p + key.len()) =~= whole.subrange(p, p + key.len()));
                    assert(occurs_at(jf, key, p));
                } else if p >= l + 1 {
                    assert(last.subrange(p - l - 1, p - l - 1 + key.len()) =~= whole.subrange(p, p + key.len()));
                    assert(occurs_at(last, key, p - l - 1));
                } else {
                    assert(whole[l] == '\n');
                    assert(whole.subrange(p, p + key.len())[l - p] == whole[l]);
                    assert(key[l - p] == '\n');
                }
            }
        }
    }
}

/// Filtering keeps only elements that pass the predicate.
proof fn lemma_filter_members(s: Seq<Seq<char>>, pred: spec_fn(Seq<char>) -> bool)
    ensures
        forall|i: int| 0 <= i < s.filter(pred).len() ==> pred(#[trigger] s.filter(pred)[i]) && s.contains(s.filter(pred)[i]),
    decreases s.len(),
{
    reveal_with_fuel(Seq::<_>::filter, 1);
    if s.len() > 0 {
        lemma_filter_members(s.drop_last(), pred);
        let f = s.filter(pred);
        assert forall|i: int| 0 <= i < f.len() implies pred(#[trigger] f[i]) && s.contains(f[i]) by {
            let g = s.drop_last().filter(pred);
            if i < g.len() {
                assert(f[i] == g[i]);
                let k = choose|k: int| 0 <= k < s.drop_last().len() && s.drop_last()[k] == g[i];
                assert(s[k] == g[i]);
            } else {
                assert(f[i] == s.last());
                assert(s[s.len() - 1] == s.last());
            }
        }
    }
}

proof fn lemma_occurs_after(a: Seq<char>, b: Seq<char>, key: Seq<char>)
    requires
        key.len() <= b.len(),
        b.subrange(0, key.len() as int) == key,
    ensures
        occurs_at(a + b, key, a.len() as int),
{
    assert((a + b).subrange(a.len() as int, a.len() + key.len() as int) =~= key);
}

proof fn lemma_line_starts_with_package(name: Seq<char>)
    ensures
        plugin_package(name).len() <= plugin_dependency_line(name).len(),
        plugin_dependency_line(name).subrange(0, plugin_package(name).len() as int) == plugin_package(name),
{
    let key = plugin_package(name);
    let line = plugin_dependency_line(name);
    assert(line.subrange(0, key.len() as int) =~= key);
}

/// After `groot plugin add`, the manifest mentions the plugin's package.
pub proof fn law_added_manifest_mentions_plugin(manifest: Seq<char>, name: Seq<char>)
    ensures
        added_manifest(manifest, name) matches Some(t) ==> contains(t, plugin_package(name)),
{
    let key = plugin_package(name);
    let line = plugin_dependency_line(name);
    lemma_line_starts_with_package(name);
    if !contains(manifest, key) {
        lemma_first_occurrence_occurs(manifest, "[profile.dev]"@);
        match first_occurrence(manifest, "[profile.dev]"@) {
            Some(p) => {
                let head = manifest.subrange(0, p);
                let rest = "\n\n"@ + manifest.subrange(p, manifest.len() as int);
                assert((line + rest).subrange(0, key.len() as int) =~= line.subrange(0, key.len() as int));
                lemma_occurs_after(head, line + rest, key);
                assert(head + line + "\n\n"@ + manifest.subrange(p, manifest.len() as int) =~= head + (line + rest));
            },
            None => {
                let head = manifest + "\n"@;
                assert((line + "\n"@).subrange(0, key.len() as int) =~= line.subrange(0, key.len() as int));
                lemma_occurs_after(head, line + "\n"@, key);
                assert(manifest + "\n"@ + line + "\n"@ =~= head + (line + "\n"@));
            },
        }
    }
}

/// Adding a plugin twice changes nothing the second time.
pub proof fn law_add_plugin_twice(manifest: Seq<char>, name: Seq<char>)
    ensures
        added_manifest(manifest, name) matches Some(t) ==> added_manifest(t, name) is None,
{
    law_added_manifest_mentions_plugin(manifest, name);
}

/// After `groot plugin remove`, the manifest no longer mentions the plugin's
/// package, for plugin names without a line break.
pub proof fn law_removed_manifest_drops_plugin(manifest: Seq<char>, name: Seq<char>)
    requires
        forall|j: int| 0 <= j < name.len() ==> name[j] != '\n',
    ensures
        !contains(removed_manifest(manifest, name), plugin_package(name)),
{
    let key = plugin_package(name);
    reveal_strlit("groot-plugin-");
    assert forall|j: int| 0 <= j < key.len() implies key[j] != '\n' by {
        if j >= 13 {
            assert(key[j] == name[j - 13]);
        }
    }
    let ls = lines_of(manifest);
    let pred = |l: Seq<char>| !contains(l, key);
    let kept = ls.filter(pred);
    lemma_lines_have_no_newline(manifest);
    lemma_filter_members(ls, pred);
    assert forall|i: int, j: int| 0 <= i < kept.len() && 0 <= j < kept[i].len() implies kept[i][j] != '\n' by {
        assert(ls.contains(kept[i]));
        let k = choose|k: int| 0 <= k < ls.len() && ls[k] == kept[i];
        assert(ls[k][j] != '\n');
    }
    assert forall|i: int| 0 <= i < kept.len() implies !contains(#[trigger] kept[i], key) by {
        assert(pred(kept[i]));
    }
    lemma_join_avoids(kept, key);
}

} // verus!
