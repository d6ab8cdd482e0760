//! The build configuration: parsing dependency requests, the built-in
//! default manifest keyed by the input's safe name, the dependency
//! sub-table, and the final merged manifest with the wrapped source text.
use vstd::prelude::*;

use crate::errors::UserError;
use crate::table::{
    arr_view, entries_view, lemma_arr_view, lemma_arr_wf, lemma_entries_view,
    lemma_sorted_distinct, lemma_tab_values_wf, map_of, value_view, view_wf, ConfigTable,
    ConfigValue, Entries, ValueView,
};
use crate::text::{lex_lt, lemma_lex_irrefl, lemma_lex_total, lemma_lex_trans, str_eq, str_lt};
use crate::tomlx::{parse_toml, toml_parse};

verus! {

// --- dependency requests ---

/// Index of the first `=` at or after `i`, or the length.
pub open spec fn first_eq(s: Seq<char>, i: int) -> int
    decreases s.len() - i,
{
    if i >= s.len() {
        s.len() as int
    } else if s[i] == '=' {
        i
    } else {
        first_eq(s, i + 1)
    }
}

/// The package name of a request: everything before the first `=`, or the
/// whole text.
pub open spec fn dep_name(arg: Seq<char>) -> Seq<char> {
    arg.subrange(0, first_eq(arg, 0))
}

/// The version of a request: everything after the first `=`, or `*` when
/// no version is given.
pub open spec fn dep_version(arg: Seq<char>) -> Seq<char> {
    if first_eq(arg, 0) == arg.len() {
        "*"@
    } else {
        arg.subrange(first_eq(arg, 0) + 1, arg.len() as int)
    }
}

/// The outcome of reading the dependency requests, in order: the mapping
/// from name to version, or the first failure.
pub ghost enum DepParse {
    Parsed(Map<Seq<char>, Seq<char>>),
    EmptyName,
    EmptyVersion,
    Conflict { name: Seq<char>, existing: Seq<char>, requested: Seq<char> },
}

/// Reads the requests from index `i` on into the accumulated mapping.
/// A repeated name must carry the very same version text; nothing is
/// resolved or upgraded.
pub open spec fn spec_parse_deps(args: Seq<String>, i: int, acc: Map<Seq<char>, Seq<char>>)
    -> DepParse
    decreases args.len() - i,
{
    if i >= args.len() {
        DepParse::Parsed(acc)
    } else {
        let n = dep_name(args[i]@);
        let v = dep_version(args[i]@);
        if n.len() == 0 {
            DepParse::EmptyName
        } else if v.len() == 0 {
            DepParse::EmptyVersion
        } else if acc.contains_key(n) {
            if acc[n] == v {
                spec_parse_deps(args, i + 1, acc)
            } else {
                DepParse::Conflict { name: n, existing: acc[n], requested: v }
            }
        } else {
            spec_parse_deps(args, i + 1, acc.insert(n, v))
        }
    }
}

/// Splits one request into name and version, expanding a bare name to
/// version `*`.
fn split_dep_arg(arg: &str) -> (r: (String, String))
    ensures
        r.0@ == dep_name(arg@),
        r.1@ == dep_version(arg@),
{
    let n = arg.unicode_len();
    let mut j: usize = 0;
    while j < n && arg.get_char(j) != '='
        invariant
            0 <= j <= n,
            n == arg@.len(),
            first_eq(arg@, 0) == first_eq(arg@, j as int),
        decreases n - j,
    {
        j = j + 1;
    }
    proof {
        assert(first_eq(arg@, 0) == j);
    }
    let name = arg.substring_char(0, j).to_owned();
    let version = if j == n {
        let v = String::from_str("*");
        v
    } else {
        arg.substring_char(j + 1, n).to_owned()
    };
    (name, version)
}

/// Reads the dependency requests into a list sorted by name, with no name
/// twice: a bare `name` means `name=*`; an empty name or version fails; a
/// repeated name with a different version text is a conflict.
pub fn parse_deps(args: &Vec<String>) -> (r: Result<Vec<(String, String)>, UserError>)
    ensures
        match spec_parse_deps(args@, 0, Map::<Seq<char>, Seq<char>>::empty()) {
            DepParse::Parsed(m) => (r matches Ok(d) && d@.len() == m.dom().len() && (forall|
                i: int,
                j: int,
            |
                0 <= i < j < d@.len() ==> lex_lt(
                    (#[trigger] d@[i]).0@,
                    (#[trigger] d@[j]).0@,
                )) && (forall|i: int|
                0 <= i < d@.len() ==> m.contains_key((#[trigger] d@[i]).0@) && m[d@[i].0@]
                    == d@[i].1@)),
            DepParse::EmptyName => r matches Err(e) && e is EmptyDepName,
            DepParse::EmptyVersion => r matches Err(e) && e is EmptyDepVersion,
            DepParse::Conflict { name, existing, requested } => r matches Err(e) && (
            e matches UserError::ConflictingDepVersions {
                name: en,
                existing: ee,
                requested: er,
            } && en@ == name && ee@ == existing && er@ == requested),
        },
{
    let ghost all = args@;
    let mut out: Vec<(String, String)> = Vec::new();
    let ghost acc = Map::<Seq<char>, Seq<char>>::empty();
    let mut idx: usize = 0;
    proof {
        assert(acc.dom() =~= Set::<Seq<char>>::empty());
    }
    while idx < args.len()
        invariant
            0 <= idx <= all.len(),
            all == args@,
            spec_parse_deps(all, 0, Map::<Seq<char>, Seq<char>>::empty()) == spec_parse_deps(
                all,
                idx as int,
                acc,
            ),
            acc.dom().finite(),
            out@.len() == acc.dom().len(),
            forall|i: int, j: int|
                0 <= i < j < out@.len() ==> lex_lt((#[trigger] out@[i]).0@, (#[trigger] out@[j]).0@),
            forall|i: int|
                0 <= i < out@.len() ==> acc.contains_key((#[trigger] out@[i]).0@) && acc[out@[i].0@]
                    == out@[i].1@,
            forall|k: Seq<char>|
                acc.dom().contains(k) ==> exists|i: int|
                    0 <= i < out@.len() && (#[trigger] out@[i]).0@ == k,
        decreases all.len() - idx,
    {
        let (name, version) = split_dep_arg(args[idx].as_str());
        if name.unicode_len() == 0 {
            return Err(UserError::EmptyDepName);
        }
        if version.unicode_len() == 0 {
            return Err(UserError::EmptyDepVersion);
        }
        // Sorted insert, checking an existing entry for an exact match.
        let n = out.len();
        let mut p: usize = 0;
        while p < n && str_lt(out[p].0.as_str(), name.as_str())
            invariant
                0 <= p <= n,
                n == out@.len(),
                forall|i: int, j: int|
                    0 <= i < j < out@.len() ==> lex_lt(
                        (#[trigger] out@[i]).0@,
                        (#[trigger] out@[j]).0@,
                    ),
                forall|i: int| 0 <= i < p ==> lex_lt((#[trigger] out@[i]).0@, name@),
            decreases n - p,
        {
            p = p + 1;
        }
        let found = p < n && str_eq(out[p].0.as_str(), name.as_str());
        proof {
            if !found {
                assert forall|i: int| p <= i < out@.len() implies lex_lt(
                    name@,
                    (#[trigger] out@[i]).0@,
                ) by {
                    lemma_lex_total(out@[p as int].0@, name@);
                    if i > p {
                        lemma_lex_trans(name@, out@[p as int].0@, out@[i].0@);
                    }
                }
                assert forall|i: int| 0 <= i < out@.len() implies (#[trigger] out@[i]).0@
                    != name@ by {
                    if out@[i].0@ == name@ {
                        lemma_lex_irrefl(name@);
                    }
                }
                assert(!acc.contains_key(name@));
            }
        }
        if found {
            let same = str_eq(out[p].1.as_str(), version.as_str());
            if !same {
                let existing = out[p].1.clone();
                return Err(
                    UserError::ConflictingDepVersions { name, existing, requested: version },
                );
            }
            proof {
                assert(acc.contains_key(name@) && acc[name@] == version@);
            }
        } else {
            let ghost name_v = name@;
            let ghost ver_v = version@;
            let ghost out0 = out@;
            let ghost acc0 = acc;
            out.insert(p, (name, version));
            proof {
                let out1 = out@;
                assert(out1.len() == out0.len() + 1);
                assert(forall|t: int| 0 <= t < p ==> (#[trigger] out1[t]) == out0[t]);
                assert(out1[p as int].0@ == name_v && out1[p as int].1@ == ver_v);
                assert(forall|t: int| p < t < out1.len() ==> (#[trigger] out1[t]) == out0[t - 1]);
                acc = acc0.insert(name_v, ver_v);
                assert(acc.dom() =~= acc0.dom().insert(name_v));
                vstd::set::axiom_set_insert_len(acc0.dom(), name_v);
                assert(out1.len() == acc.dom().len());
                assert forall|i: int, j: int| 0 <= i < j < out1.len() implies lex_lt(
                    (#[trigger] out1[i]).0@,
                    (#[trigger] out1[j]).0@,
                ) by {
                    if j < p {
                    } else if j == p {
                        assert(lex_lt(out0[i].0@, name_v));
                    } else if i == p {
                        assert(lex_lt(name_v, out0[j - 1].0@));
                    } else if i < p {
                        assert(out1[i] == out0[i] && out1[j] == out0[j - 1]);
                        assert(lex_lt(out0[i].0@, name_v));
                        assert(lex_lt(name_v, out0[j - 1].0@));
                        lemma_lex_trans(out0[i].0@, name_v, out0[j - 1].0@);
                    } else {
                        assert(out1[i] == out0[i - 1] && out1[j] == out0[j - 1]);
                    }
                }
                assert forall|i: int|
                    0 <= i < out1.len() implies acc.contains_key((#[trigger] out1[i]).0@)
                    && acc[out1[i].0@] == out1[i].1@ by {
                    if i < p {
                        assert(out1[i] == out0[i]);
                        assert(out0[i].0@ != name_v);
                    } else if i > p {
                        assert(out1[i] == out0[i - 1]);
                        assert(out0[i - 1].0@ != name_v);
                    }
                }
                assert forall|k: Seq<char>| acc.dom().contains(k) implies exists|i: int|
                    0 <= i < out1.len() && (#[trigger] out1[i]).0@ == k by {
                    if k == name_v {
                        assert(out1[p as int].0@ == k);
                    } else {
                        let w = choose|i: int|
                            0 <= i < out0.len() && (#[trigger] out0[i]).0@ == k;
                        if w < p {
                            assert(out1[w].0@ == k);
                        } else {
                            assert(out1[w + 1].0@ == k);
                        }
                    }
                }
            }
        }
        idx = idx + 1;
    }
    proof {
        assert(spec_parse_deps(all, idx as int, acc) == DepParse::Parsed(acc));
    }
    Ok(out)
}

// --- the built-in default manifest ---

/// The default manifest for an input: one binary target named by the safe
/// name, and a package section with an anonymous author.
pub open spec fn spec_default_manifest(name: Seq<char>) -> Map<Seq<char>, ValueView> {
    Map::<Seq<char>, ValueView>::empty().insert(
        "bin"@,
        ValueView::Arr(
            seq![
                ValueView::Tab(
                    seq![
                        ("name"@, ValueView::Str(name)),
                        ("path"@, ValueView::Str(name + ".rs"@)),
                    ],
                ),
            ],
        ),
    ).insert(
        "package"@,
        ValueView::Tab(
            seq![
                ("authors"@, ValueView::Arr(seq![ValueView::Str("Anonymous"@)])),
                ("name"@, ValueView::Str(name)),
                ("version"@, ValueView::Str("0.1.0"@)),
            ],
        ),
    )
}

/// Builds the default manifest for the given input.
pub fn default_manifest(input: &crate::input::Input) -> (r: ConfigTable)
    ensures
        r.wf(),
        r.as_map() == spec_default_manifest(input.spec_safe_name()),
{
    let name = input.safe_name();
    let ghost nv = name@;

    // The binary target: name and path, in key order.
    let mut bin_entries: Vec<(String, ConfigValue)> = Vec::new();
    bin_entries.push((String::from_str("name"), ConfigValue::Str(name.to_owned())));
    bin_entries.push(
        (String::from_str("path"), ConfigValue::Str(name.to_owned().concat(".rs"))),
    );
    let bin_table = ConfigTable { entries: bin_entries };
    let ghost bin_seq = seq![("name"@, ValueView::Str(nv)), ("path"@, ValueView::Str(nv + ".rs"@))];
    proof {
        reveal_strlit("name");
        reveal_strlit("path");
        lemma_entries_view(bin_table.entries@);
        assert(bin_table.entries@.len() == 2);
        assert(bin_table.entries@[0].0@ == "name"@ && value_view(bin_table.entries@[0].1)
            == ValueView::Str(nv));
        assert(bin_table.entries@[1].0@ == "path"@ && value_view(bin_table.entries@[1].1)
            == ValueView::Str(nv + ".rs"@));
        assert(bin_table@ =~= bin_seq);
        assert(lex_lt("name"@, "path"@));
        lemma_tab_values_wf(bin_table@);
        assert(bin_table.wf());
    }
    let mut bins: Vec<ConfigValue> = Vec::new();
    bins.push(ConfigValue::Tab(bin_table));
    let bin_value = ConfigValue::Arr(bins);
    proof {
        lemma_arr_view(bin_value->Arr_0@);
        assert(bin_value->Arr_0@.len() == 1);
        assert(value_view(bin_value->Arr_0@[0]) == ValueView::Tab(bin_seq));
        assert(arr_view(bin_value->Arr_0@) =~= seq![ValueView::Tab(bin_seq)]);
        assert(bin_value@ == ValueView::Arr(seq![ValueView::Tab(bin_seq)]));
        lemma_arr_wf(arr_view(bin_value->Arr_0@));
        assert(bin_value.wf());
    }

    // The package section: authors, name, version, in key order.
    let mut authors: Vec<ConfigValue> = Vec::new();
    authors.push(ConfigValue::Str(String::from_str("Anonymous")));
    let mut pkg_entries: Vec<(String, ConfigValue)> = Vec::new();
    pkg_entries.push((String::from_str("authors"), ConfigValue::Arr(authors)));
    pkg_entries.push((String::from_str("name"), ConfigValue::Str(name.to_owned())));
    pkg_entries.push((String::from_str("version"), ConfigValue::Str(String::from_str("0.1.0"))));
    let pkg_table = ConfigTable { entries: pkg_entries };
    let ghost authors_v = ValueView::Arr(seq![ValueView::Str("Anonymous"@)]);
    let ghost pkg_seq = seq![
        ("authors"@, authors_v),
        ("name"@, ValueView::Str(nv)),
        ("version"@, ValueView::Str("0.1.0"@)),
    ];
    proof {
        reveal_strlit("authors");
        reveal_strlit("name");
        reveal_strlit("version");
        lemma_entries_view(pkg_table.entries@);
        assert(pkg_table.entries@.len() == 3);
        let avec = pkg_table.entries@[0].1->Arr_0;
        lemma_arr_view(avec@);
        assert(avec@.len() == 1);
        assert(value_view(avec@[0]) == ValueView::Str("Anonymous"@));
        assert(arr_view(avec@) =~= seq![ValueView::Str("Anonymous"@)]);
        assert(pkg_table.entries@[0].0@ == "authors"@ && value_view(pkg_table.entries@[0].1)
            == authors_v);
        assert(pkg_table.entries@[1].0@ == "name"@ && value_view(pkg_table.entries@[1].1)
            == ValueView::Str(nv));
        assert(pkg_table.entries@[2].0@ == "version"@ && value_view(pkg_table.entries@[2].1)
            == ValueView::Str("0.1.0"@));
        assert(pkg_table@ =~= pkg_seq);
        assert(lex_lt("authors"@, "name"@));
        assert(lex_lt("name"@, "version"@));
        assert(lex_lt("authors"@, "version"@));
        lemma_arr_wf(authors_v->Arr_0);
        assert(view_wf(authors_v));
        lemma_tab_values_wf(pkg_table@);
        assert(pkg_table.wf());
    }
    let pkg_value = ConfigValue::Tab(pkg_table);

    let mut top = ConfigTable::new();
    top.set(String::from_str("bin"), bin_value);
    top.set(String::from_str("package"), pkg_value);
    proof {
        assert(top.as_map() =~= spec_default_manifest(nv));
    }
    top
}

// --- the dependency sub-table ---

/// The one-line document used to read a version written as an inline
/// table.
pub open spec fn dep_doc(name: Seq<char>, ver: Seq<char>) -> Seq<char> {
    name + " = "@ + ver
}

/// The table value a dependency request turns into: plain version text is
/// a string; a version written as an inline table is read by the manifest
/// parser, and `None` when that fails.
pub open spec fn spec_dep_value(name: Seq<char>, ver: Seq<char>) -> Option<ValueView> {
    if ver.len() == 0 || ver[0] != '{' {
        Some(ValueView::Str(ver))
    } else {
        match toml_parse(dep_doc(name, ver)) {
            Some(es) => if map_of(es).contains_key(name) {
                Some(map_of(es)[name])
            } else {
                None
            },
            None => None,
        }
    }
}

/// The dependencies sub-table built from the list, or the index of the
/// first entry whose version cannot be read.
pub open spec fn spec_deps_table(
    ds: Seq<(String, String)>,
    i: int,
    acc: Map<Seq<char>, ValueView>,
) -> Result<Map<Seq<char>, ValueView>, int>
    decreases ds.len() - i,
{
    if i >= ds.len() {
        Ok(acc)
    } else {
        match spec_dep_value(ds[i].0@, ds[i].1@) {
            Some(v) => spec_deps_table(ds, i + 1, acc.insert(ds[i].0@, v)),
            None => Err(i),
        }
    }
}

/// Builds the manifest holding the dependency list as a `dependencies`
/// table.  A version that starts with `{` is read as an inline table; a
/// version that cannot be read fails with the offending request.
pub fn deps_manifest(deps: &Vec<(String, String)>) -> (r: Result<ConfigTable, UserError>)
    ensures
        match spec_deps_table(deps@, 0, Map::<Seq<char>, ValueView>::empty()) {
            Ok(m) => r matches Ok(t) && t.wf() && t.as_map().dom() =~= Set::<Seq<char>,
            >::empty().insert("dependencies"@) && (t.as_map()["dependencies"@] matches
            ValueView::Tab(es) && map_of(es) == m),
            Err(i) => r matches Err(e) && (e matches UserError::InvalidDepVersion {
                name,
                version,
            } && name@ == deps@[i].0@ && version@ == deps@[i].1@),
        },
{
    let ghost all = deps@;
    let mut inner = ConfigTable::new();
    let mut idx: usize = 0;
    while idx < deps.len()
        invariant
            0 <= idx <= all.len(),
            all == deps@,
            inner.wf(),
            spec_deps_table(all, 0, Map::<Seq<char>, ValueView>::empty()) == spec_deps_table(
                all,
                idx as int,
                inner.as_map(),
            ),
        decreases all.len() - idx,
    {
        let name = &deps[idx].0;
        let ver = &deps[idx].1;
        let braced = ver.as_str().unicode_len() > 0 && ver.as_str().get_char(0) == '{';
        if braced {
            let mut doc = name.clone();
            doc.append(" = ");
            doc.append(ver.as_str());
            proof {
                assert(doc@ == dep_doc(name@, ver@));
            }
            match parse_toml(doc.as_str()) {
                None => {
                    return Err(
                        UserError::InvalidDepVersion { name: name.clone(), version: ver.clone() },
                    );
                },
                Some(mut tab) => {
                    proof {
                        lemma_sorted_distinct(tab@);
                    }
                    match tab.take(name.as_str()) {
                        None => {
                            return Err(
                                UserError::InvalidDepVersion {
                                    name: name.clone(),
                                    version: ver.clone(),
                                },
                            );
                        },
                        Some((_k, val)) => {
                            inner.set(name.clone(), val);
                        },
                    }
                },
            }
        } else {
            proof {
                assert(view_wf(ValueView::Str(ver@)));
            }
            inner.set(name.clone(), ConfigValue::Str(ver.clone()));
        }
        idx = idx + 1;
    }
    let mut top = ConfigTable::new();
    top.set(String::from_str("dependencies"), ConfigValue::Tab(inner));
    proof {
        assert(top.as_map().dom() =~= Set::<Seq<char>>::empty().insert("dependencies"@));
    }
    Ok(top)
}

// --- source templates and the full split ---

/// An expression wrapped into a program that prints its value.
pub open spec fn expr_wrapped(body: Seq<char>) -> Seq<char> {
    "fn main() {\n    println!(\"{:?}\", {\n"@ + body + "\n    });\n}\n"@
}

/// A closure body wrapped into a program that applies it to each input
/// line, with or without a 1-based line index.
pub open spec fn loop_wrapped(body: Seq<char>, count: bool) -> Seq<char> {
    if count {
        "use std::io::prelude::*;\n\nfn main() {\n    let mut closure = |line: &str, index: usize| {\n"@
            + body
            + "\n    };\n\n    let stdin = std::io::stdin();\n    let mut index = 0usize;\n    for line in stdin.lock().lines() {\n        let line = line.unwrap();\n        index += 1;\n        println!(\"{:?}\", closure(&line, index));\n    }\n}\n"@
    } else {
        "use std::io::prelude::*;\n\nfn main() {\n    let mut closure = |line: &str| {\n"@ + body
            + "\n    };\n\n    let stdin = std::io::stdin();\n    for line in stdin.lock().lines() {\n        let line = line.unwrap();\n        println!(\"{:?}\", closure(&line));\n    }\n}\n"@
    }
}

/// Splices a body into a template's two halves.
fn expand3(prefix: &str, body: &str, suffix: &str) -> (r: String)
    ensures
        r@ == prefix@ + body@ + suffix@,
{
    let mut s = prefix.to_owned();
    s.append(body);
    s.append(suffix);
    s
}

/// The embedded configuration fragment's parsed entries: for a file, what
/// the splitter and the manifest parser make of it; empty for the other
/// variants, which carry no fragment.
pub open spec fn spec_part_entries(input: crate::input::Input) -> Option<Entries> {
    match input {
        crate::input::Input::File { content, .. } => match crate::split::spec_split_file(
            content@,
        ) {
            Some(p) => toml_parse(content@.subrange(p.0, p.1)),
            None => None,
        },
        _ => Some(Seq::empty()),
    }
}

/// The source text handed to the build: a file's split-off tail as it
/// stands, or the variant's template around the raw text.
pub open spec fn spec_source_text(input: crate::input::Input) -> Seq<char> {
    match input {
        crate::input::Input::File { content, .. } => match crate::split::spec_split_file(
            content@,
        ) {
            Some(p) => content@.subrange(p.2, content@.len() as int),
            None => Seq::empty(),
        },
        crate::input::Input::Expr { content } => expr_wrapped(content@),
        crate::input::Input::Loop { content, count } => loop_wrapped(content@, count),
    }
}

/// Whether the value the merge of `b` and `o` leaves at `k` is a table.
pub open spec fn merged_tab_at(
    b: Map<Seq<char>, ValueView>,
    o: Map<Seq<char>, ValueView>,
    k: Seq<char>,
) -> bool {
    if o.contains_key(k) {
        o[k] is Tab
    } else {
        b[k] is Tab
    }
}

/// Whether both merges of the pipeline go through: the fragment must not
/// clash with the defaults, and whatever they leave under `dependencies`
/// must be a table, since the dependency sub-table lands there.
pub open spec fn spec_manifest_ok(name: Seq<char>, part: Map<Seq<char>, ValueView>) -> bool {
    let def = spec_default_manifest(name);
    crate::merge::merge_ok(def, part) && ((def.contains_key("dependencies"@)
        || part.contains_key("dependencies"@)) ==> merged_tab_at(def, part, "dependencies"@))
}

/// Whether the whole split succeeds for this input and dependency list.
pub open spec fn spec_split_ok(input: crate::input::Input, ds: Seq<(String, String)>) -> bool {
    match (spec_part_entries(input), spec_deps_table(ds, 0, Map::<Seq<char>, ValueView>::empty())) {
        (Some(part), Ok(_)) => spec_manifest_ok(input.spec_safe_name(), map_of(part)),
        _ => false,
    }
}

/// Whether `t` is the final manifest for this input and dependency list:
/// the defaults, overlaid with the parsed fragment, overlaid with the
/// dependency sub-table, all in sorted well-formed tables.
pub open spec fn spec_built_manifest(
    input: crate::input::Input,
    ds: Seq<(String, String)>,
    t: Entries,
) -> bool {
    match (spec_part_entries(input), spec_deps_table(ds, 0, Map::<Seq<char>, ValueView>::empty())) {
        (Some(part), Ok(dm)) => exists|mid: Entries, dtop: Entries|
            #![trigger map_of(mid), map_of(dtop)]
            view_wf(ValueView::Tab(mid)) && crate::merge::merged(
                spec_default_manifest(input.spec_safe_name()),
                map_of(part),
                map_of(mid),
            ) && view_wf(ValueView::Tab(t)) && map_of(dtop).dom() == Set::<Seq<char>,
            >::empty().insert("dependencies"@) && (map_of(dtop)["dependencies"@] matches
            ValueView::Tab(es) && map_of(es) == dm) && crate::merge::merged(
                map_of(mid),
                map_of(dtop),
                map_of(t),
            ),
        _ => false,
    }
}

/// Splits the input into the final manifest text and the source text: the
/// embedded fragment is parsed and merged over the defaults, the
/// dependency sub-table is merged over that, and the source is wrapped in
/// the variant's template.
pub fn split_input(input: &crate::input::Input, deps: &Vec<(String, String)>) -> (r: Result<
    (String, String),
    UserError,
>)
    ensures
        r is Ok <==> spec_split_ok(*input, deps@),
        r matches Ok(p) ==> (exists|t: Entries|
            #[trigger] spec_built_manifest(*input, deps@, t) && p.0@ == crate::tomlx::toml_text_of(
                t,
            )) && p.1@ == spec_source_text(*input),
        r matches Err(e) ==> match e {
            UserError::NoSourceFound => (*input matches crate::input::Input::File { content, .. }
                && crate::split::spec_split_file(content@) is None),
            UserError::InvalidManifest => (*input matches crate::input::Input::File {
                content,
                ..
            } && (crate::split::spec_split_file(content@) matches Some(p2) && toml_parse(
                content@.subrange(p2.0, p2.1),
            ) is None)),
            UserError::InvalidDepVersion { name, version } => match spec_deps_table(
                deps@,
                0,
                Map::<Seq<char>, ValueView>::empty(),
            ) {
                Err(i) => name@ == deps@[i].0@ && version@ == deps@[i].1@,
                Ok(_) => false,
            },
            UserError::MergeConflict => match spec_part_entries(*input) {
                Some(part) => !spec_manifest_ok(input.spec_safe_name(), map_of(part)),
                None => false,
            },
            _ => false,
        },
{
    let (part, source): (ConfigTable, String) = match input {
        crate::input::Input::File { content, .. } => {
            match crate::split::split_file(content.as_str()) {
                Err(e) => {
                    return Err(e);
                },
                Ok((frag, src)) => match parse_toml(frag.as_str()) {
                    None => {
                        return Err(UserError::InvalidManifest);
                    },
                    Some(t) => (t, src),
                },
            }
        },
        crate::input::Input::Expr { content } => (
            ConfigTable::new(),
            expand3("fn main() {\n    println!(\"{:?}\", {\n", content.as_str(), "\n    });\n}\n"),
        ),
        crate::input::Input::Loop { content, count } => {
            if *count {
                (
                    ConfigTable::new(),
                    expand3(
                        "use std::io::prelude::*;\n\nfn main() {\n    let mut closure = |line: &str, index: usize| {\n",
                        content.as_str(),
                        "\n    };\n\n    let stdin = std::io::stdin();\n    let mut index = 0usize;\n    for line in stdin.lock().lines() {\n        let line = line.unwrap();\n        index += 1;\n        println!(\"{:?}\", closure(&line, index));\n    }\n}\n",
                    ),
                )
            } else {
                (
                    ConfigTable::new(),
                    expand3(
                        "use std::io::prelude::*;\n\nfn main() {\n    let mut closure = |line: &str| {\n",
                        content.as_str(),
                        "\n    };\n\n    let stdin = std::io::stdin();\n    for line in stdin.lock().lines() {\n        let line = line.unwrap();\n        println!(\"{:?}\", closure(&line));\n    }\n}\n",
                    ),
                )
            }
        },
    };
    proof {
        assert(Some(part@) == spec_part_entries(*input));
        assert(source@ == spec_source_text(*input));
    }
    let dm = match deps_manifest(deps) {
        Err(e) => {
            return Err(e);
        },
        Ok(t) => t,
    };
    let def = default_manifest(input);
    let ghost def_map = def.as_map();
    let ghost part_map = part.as_map();
    let ghost dm_map = dm.as_map();
    let mid = match crate::merge::merge_manifest(def, part) {
        Err(_) => {
            proof {
                assert(!spec_manifest_ok(input.spec_safe_name(), part_map));
            }
            return Err(UserError::MergeConflict);
        },
        Ok(t) => t,
    };
    let ghost mid_map = mid.as_map();
    let ghost mid_entries = mid@;
    let final_t = match crate::merge::merge_manifest(mid, dm) {
        Err(_) => {
            proof {
                let k = choose|k: Seq<char>|
                    #[trigger] crate::merge::merge_conflict_at(mid_map, dm_map, k);
                assert(k == "dependencies"@);
                assert(crate::merge::merged_at(def_map, part_map, mid_map, k));
                assert(!merged_tab_at(def_map, part_map, k));
                assert(!spec_manifest_ok(input.spec_safe_name(), part_map));
            }
            return Err(UserError::MergeConflict);
        },
        Ok(t) => t,
    };
    let mani = crate::tomlx::toml_text(&final_t);
    proof {
        // Both merges went through, so the split succeeds as specified.
        assert forall|k: Seq<char>|
            !(#[trigger] crate::merge::merge_conflict_at(def_map, part_map, k)) by {}
        if def_map.contains_key("dependencies"@) || part_map.contains_key("dependencies"@) {
            assert(!crate::merge::merge_conflict_at(mid_map, dm_map, "dependencies"@));
            assert(crate::merge::merged_at(def_map, part_map, mid_map, "dependencies"@));
            assert(merged_tab_at(def_map, part_map, "dependencies"@));
        }
        assert(spec_manifest_ok(input.spec_safe_name(), part_map));
        assert(spec_split_ok(*input, deps@));
        assert(spec_built_manifest(*input, deps@, final_t@)) by {
            assert(view_wf(ValueView::Tab(mid_entries)) && crate::merge::merged(
                def_map,
                part_map,
                map_of(mid_entries),
            ) && view_wf(ValueView::Tab(final_t@)) && map_of(dm@).dom() == Set::<Seq<char>,
            >::empty().insert("dependencies"@) && (map_of(dm@)["dependencies"@] matches
            ValueView::Tab(es)) && crate::merge::merged(
                map_of(mid_entries),
                map_of(dm@),
                map_of(final_t@),
            ));
        }
    }
    Ok((mani, source))
}

} // verus!
