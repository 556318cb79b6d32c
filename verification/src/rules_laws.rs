//! What the rules promise of a directory that is taken for a cache.

use vstd::prelude::*;

use crate::rules;
use crate::rules::{Category, RuleView};

verus! {

/// The first rule that fits is the one that counts.
proof fn lemma_first_fit(
    rs: Seq<RuleView>,
    name: Seq<char>,
    siblings: Option<Seq<Seq<char>>>,
    children: Seq<Seq<char>>,
)
    ensures
        match rules::first_fit(rs, name, siblings, children) {
            Some(r) => exists|i: int|
                0 <= i < rs.len() && #[trigger] rs[i] == r && rules::rule_fits(
                    r,
                    name,
                    siblings,
                    children,
                ) && forall|j: int|
                    0 <= j < i ==> !rules::rule_fits(#[trigger] rs[j], name, siblings, children),
            None => forall|i: int|
                0 <= i < rs.len() ==> !rules::rule_fits(#[trigger] rs[i], name, siblings, children),
        },
    decreases rs.len(),
{
    if rs.len() > 0 {
        if rules::rule_fits(rs[0], name, siblings, children) {
            assert(rs[0] == rules::first_fit(rs, name, siblings, children)->0);
        } else {
            let rest = rs.skip(1);
            lemma_first_fit(rest, name, siblings, children);
            match rules::first_fit(rest, name, siblings, children) {
                Some(r) => {
                    let i = choose|i: int|
                        0 <= i < rest.len() && #[trigger] rest[i] == r && rules::rule_fits(
                            r,
                            name,
                            siblings,
                            children,
                        ) && forall|j: int|
                            0 <= j < i ==> !rules::rule_fits(
                                #[trigger] rest[j],
                                name,
                                siblings,
                                children,
                            );
                    assert(rs[i + 1] == r);
                    assert forall|j: int| 0 <= j < i + 1 implies !rules::rule_fits(
                        #[trigger] rs[j],
                        name,
                        siblings,
                        children,
                    ) by {
                        if j > 0 {
                            assert(rest[j - 1] == rs[j]);
                        }
                    }
                },
                None => {
                    assert forall|i: int| 0 <= i < rs.len() implies !rules::rule_fits(
                        #[trigger] rs[i],
                        name,
                        siblings,
                        children,
                    ) by {
                        if i > 0 {
                            assert(rest[i - 1] == rs[i]);
                        }
                    }
                },
            }
        }
    }
}

/// A directory is a cache only by a rule of the table whose demands are all met: it bears
/// the name of the rule, something in it is called as the rule demands, and something
/// beside it is called or ends as the rule demands.
pub proof fn law_cache_meets_its_rule(
    name: Seq<char>,
    siblings: Option<Seq<Seq<char>>>,
    children: Seq<Seq<char>>,
)
    ensures
        rules::classified(name, siblings, children) matches Some(r) ==> {
            &&& rules::all_rules().contains(r)
            &&& name == r.name || (r.name.len() > 0 && r.name.last() == '*'
                && r.name.drop_last().is_prefix_of(name))
            &&& r.child_any.len() > 0 ==> exists|i: int|
                0 <= i < children.len() && r.child_any.contains(#[trigger] children[i])
            &&& r.sibling_any.len() + r.sibling_ext.len() > 0 ==> (siblings matches Some(s)
                && exists|i: int|
                0 <= i < s.len() && (r.sibling_any.contains(#[trigger] s[i]) || exists|k: int|
                    0 <= k < r.sibling_ext.len() && (#[trigger] r.sibling_ext[k]).is_suffix_of(
                        s[i],
                    )))
        },
{
    lemma_first_fit(rules::all_rules(), name, siblings, children);
    if let Some(r) = rules::classified(name, siblings, children) {
        if r.child_any.len() > 0 {
            let e = Seq::<Seq<char>>::empty();
            let i = choose|i: int|
                0 <= i < children.len() && #[trigger] rules::name_wanted(
                    children[i],
                    r.child_any,
                    e,
                );
            assert(r.child_any.contains(children[i]));
        }
        if r.sibling_any.len() + r.sibling_ext.len() > 0 {
            let s = siblings->0;
            let i = choose|i: int|
                0 <= i < s.len() && #[trigger] rules::name_wanted(
                    s[i],
                    r.sibling_any,
                    r.sibling_ext,
                );
            assert(rules::name_wanted(s[i], r.sibling_any, r.sibling_ext));
            if !r.sibling_any.contains(s[i]) {
                let k = choose|k: int|
                    0 <= k < r.sibling_ext.len()
                        && (#[trigger] r.sibling_ext[k]).is_suffix_of(s[i]);
                assert(r.sibling_ext[k].is_suffix_of(s[i]));
            }
        }
    }
}

/// A directory for which all demands of a rule of the table are met is a cache, by that
/// rule or by one that stands before it.
pub proof fn law_met_rule_makes_a_cache(
    name: Seq<char>,
    siblings: Option<Seq<Seq<char>>>,
    children: Seq<Seq<char>>,
    at: int,
)
    requires
        0 <= at < rules::all_rules().len(),
        ({
            let r = rules::all_rules()[at];
            &&& if r.name.len() > 0 && r.name.last() == '*' {
                r.name.drop_last().is_prefix_of(name)
            } else {
                name == r.name
            }
            &&& r.child_any.len() > 0 ==> exists|i: int|
                0 <= i < children.len() && r.child_any.contains(#[trigger] children[i])
            &&& r.sibling_any.len() + r.sibling_ext.len() > 0 ==> (siblings matches Some(s)
                && exists|i: int|
                0 <= i < s.len() && (r.sibling_any.contains(#[trigger] s[i]) || exists|k: int|
                    0 <= k < r.sibling_ext.len() && (#[trigger] r.sibling_ext[k]).is_suffix_of(
                        s[i],
                    )))
        }),
    ensures
        rules::classified(name, siblings, children) matches Some(r) && exists|i: int|
            0 <= i <= at && #[trigger] rules::all_rules()[i] == r,
{
    let all = rules::all_rules();
    let r = all[at];
    lemma_first_fit(all, name, siblings, children);
    assert(rules::rule_fits(r, name, siblings, children)) by {
        let e = Seq::<Seq<char>>::empty();
        if r.child_any.len() > 0 {
            let i = choose|i: int|
                0 <= i < children.len() && r.child_any.contains(#[trigger] children[i]);
            assert(rules::name_wanted(children[i], r.child_any, e));
        }
        if r.sibling_any.len() + r.sibling_ext.len() > 0 {
            let s = siblings->0;
            let i = choose|i: int|
                0 <= i < s.len() && (r.sibling_any.contains(#[trigger] s[i]) || exists|k: int|
                    0 <= k < r.sibling_ext.len() && (#[trigger] r.sibling_ext[k]).is_suffix_of(
                        s[i],
                    ));
            assert(rules::name_wanted(s[i], r.sibling_any, r.sibling_ext));
        }
    }
    let got = rules::classified(name, siblings, children)->0;
    let i = choose|i: int|
        0 <= i < all.len() && #[trigger] all[i] == got && rules::rule_fits(
            got,
            name,
            siblings,
            children,
        ) && forall|j: int|
            0 <= j < i ==> !rules::rule_fits(#[trigger] all[j], name, siblings, children);
    assert(i <= at);
}

/// The rules of the table, one by one.
proof fn lemma_table()
    ensures
        rules::all_rules().len() == 42,
        rules::all_rules()[0] == rules::js_rules()[0],
        rules::all_rules()[1] == rules::js_rules()[1],
        rules::all_rules()[2] == rules::js_rules()[2],
        rules::all_rules()[3] == rules::js_rules()[3],
        rules::all_rules()[4] == rules::js_rules()[4],
        rules::all_rules()[5] == rules::js_rules()[5],
        rules::all_rules()[6] == rules::js_rules()[6],
        rules::all_rules()[7] == rules::js_rules()[7],
        rules::all_rules()[8] == rules::js_rules()[8],
        rules::all_rules()[9] == rules::js_rules()[9],
        rules::all_rules()[10] == rules::js_rules()[10],
        rules::all_rules()[11] == rules::js_rules()[11],
        rules::all_rules()[12] == rules::js_rules()[12],
        rules::all_rules()[13] == rules::rust_rules()[0],
        rules::all_rules()[14] == rules::python_rules()[0],
        rules::all_rules()[15] == rules::python_rules()[1],
        rules::all_rules()[16] == rules::python_rules()[2],
        rules::all_rules()[17] == rules::python_rules()[3],
        rules::all_rules()[18] == rules::python_rules()[4],
        rules::all_rules()[19] == rules::python_rules()[5],
        rules::all_rules()[20] == rules::python_rules()[6],
        rules::all_rules()[21] == rules::python_rules()[7],
        rules::all_rules()[22] == rules::python_rules()[8],
        rules::all_rules()[23] == rules::python_rules()[9],
        rules::all_rules()[24] == rules::python_rules()[10],
        rules::all_rules()[25] == rules::jvm_rules()[0],
        rules::all_rules()[26] == rules::jvm_rules()[1],
        rules::all_rules()[27] == rules::jvm_rules()[2],
        rules::all_rules()[28] == rules::apple_rules()[0],
        rules::all_rules()[29] == rules::apple_rules()[1],
        rules::all_rules()[30] == rules::apple_rules()[2],
        rules::all_rules()[31] == rules::apple_rules()[3],
        rules::all_rules()[32] == rules::dotnet_rules()[0],
        rules::all_rules()[33] == rules::dotnet_rules()[1],
        rules::all_rules()[34] == rules::cpp_rules()[0],
        rules::all_rules()[35] == rules::cpp_rules()[1],
        rules::all_rules()[36] == rules::flutter_rules()[0],
        rules::all_rules()[37] == rules::flutter_rules()[1],
        rules::all_rules()[38] == rules::unity_rules()[0],
        rules::all_rules()[39] == rules::terraform_rules()[0],
        rules::all_rules()[40] == rules::misc_rules()[0],
        rules::all_rules()[41] == rules::misc_rules()[1],
{
}

/// The names of the rules, in the order of the table.
spec fn named_so(rs: Seq<RuleView>) -> bool {
    &&& rs.len() == 42
    &&& rs[0].name == "node_modules"@
    &&& rs[1].name == "bower_components"@
    &&& rs[2].name == ".next"@
    &&& rs[3].name == ".nuxt"@
    &&& rs[4].name == ".svelte-kit"@
    &&& rs[5].name == ".angular"@
    &&& rs[6].name == ".turbo"@
    &&& rs[7].name == ".parcel-cache"@
    &&& rs[8].name == ".vite"@
    &&& rs[9].name == ".docusaurus"@
    &&& rs[10].name == "dist"@
    &&& rs[11].name == "coverage"@
    &&& rs[12].name == ".nyc_output"@
    &&& rs[13].name == "target"@
    &&& rs[14].name == "__pycache__"@
    &&& rs[15].name == ".pytest_cache"@
    &&& rs[16].name == ".mypy_cache"@
    &&& rs[17].name == ".ruff_cache"@
    &&& rs[18].name == ".ipynb_checkpoints"@
    &&& rs[19].name == ".venv"@
    &&& rs[20].name == "venv"@
    &&& rs[21].name == "env"@
    &&& rs[22].name == ".tox"@
    &&& rs[23].name == ".eggs"@
    &&& rs[24].name == "build"@
    &&& rs[25].name == ".gradle"@
    &&& rs[26].name == "build"@
    &&& rs[27].name == "target"@
    &&& rs[28].name == "DerivedData"@
    &&& rs[29].name == "Pods"@
    &&& rs[30].name == "Carthage"@
    &&& rs[31].name == ".build"@
    &&& rs[32].name == "bin"@
    &&& rs[33].name == "obj"@
    &&& rs[34].name == "build"@
    &&& rs[35].name == "cmake-build-*"@
    &&& rs[36].name == ".dart_tool"@
    &&& rs[37].name == "build"@
    &&& rs[38].name == "Library"@
    &&& rs[39].name == ".terraform"@
    &&& rs[40].name == ".cache"@
    &&& rs[41].name == "dist"@
}

proof fn lemma_names()
    ensures
        named_so(rules::all_rules()),
{
    lemma_table();
}

/// Only one rule takes more than one name.
proof fn lemma_one_wildcard(rs: Seq<RuleView>, i: int)
    requires
        named_so(rs),
        0 <= i < rs.len(),
    ensures
        rs[i].name.len() > 0,
        rs[i].name.last() == '*' <==> i == 35,
{
    lemma_letters();
}

/// The lengths of the names of the rules, and their third and last letters.
proof fn lemma_letters()
    ensures
        "node_modules"@.len() == 12 && "node_modules"@[2] == 'd' && "node_modules"@.last() == 's',
        "bower_components"@.len() == 16 && "bower_components"@[2] == 'w'
            && "bower_components"@.last() == 's',
        ".next"@.len() == 5 && ".next"@[2] == 'e' && ".next"@.last() == 't',
        ".nuxt"@.len() == 5 && ".nuxt"@[2] == 'u' && ".nuxt"@.last() == 't',
        ".svelte-kit"@.len() == 11 && ".svelte-kit"@[2] == 'v' && ".svelte-kit"@.last() == 't',
        ".angular"@.len() == 8 && ".angular"@[2] == 'n' && ".angular"@.last() == 'r',
        ".turbo"@.len() == 6 && ".turbo"@[2] == 'u' && ".turbo"@.last() == 'o',
        ".parcel-cache"@.len() == 13 && ".parcel-cache"@[2] == 'a'
            && ".parcel-cache"@.last() == 'e',
        ".vite"@.len() == 5 && ".vite"@[2] == 'i' && ".vite"@.last() == 'e',
        ".docusaurus"@.len() == 11 && ".docusaurus"@[2] == 'o' && ".docusaurus"@.last() == 's',
        "dist"@.len() == 4 && "dist"@[2] == 's' && "dist"@.last() == 't',
        "coverage"@.len() == 8 && "coverage"@[2] == 'v' && "coverage"@.last() == 'e',
        ".nyc_output"@.len() == 11 && ".nyc_output"@[2] == 'y' && ".nyc_output"@.last() == 't',
        "target"@.len() == 6 && "target"@[2] == 'r' && "target"@.last() == 't',
        "__pycache__"@.len() == 11 && "__pycache__"@[2] == 'p' && "__pycache__"@.last() == '_',
        ".pytest_cache"@.len() == 13 && ".pytest_cache"@[2] == 'y'
            && ".pytest_cache"@.last() == 'e',
        ".mypy_cache"@.len() == 11 && ".mypy_cache"@[2] == 'y' && ".mypy_cache"@.last() == 'e',
        ".ruff_cache"@.len() == 11 && ".ruff_cache"@[2] == 'u' && ".ruff_cache"@.last() == 'e',
        ".ipynb_checkpoints"@.len() == 18 && ".ipynb_checkpoints"@[2] == 'p'
            && ".ipynb_checkpoints"@.last() == 's',
        ".venv"@.len() == 5 && ".venv"@[2] == 'e' && ".venv"@.last() == 'v',
        "venv"@.len() == 4 && "venv"@[2] == 'n' && "venv"@.last() == 'v',
        "env"@.len() == 3 && "env"@[2] == 'v' && "env"@.last() == 'v',
        ".tox"@.len() == 4 && ".tox"@[2] == 'o' && ".tox"@.last() == 'x',
        ".eggs"@.len() == 5 && ".eggs"@[2] == 'g' && ".eggs"@.last() == 's',
        "build"@.len() == 5 && "build"@[2] == 'i' && "build"@.last() == 'd',
        ".gradle"@.len() == 7 && ".gradle"@[2] == 'r' && ".gradle"@.last() == 'e',
        "DerivedData"@.len() == 11 && "DerivedData"@[2] == 'r' && "DerivedData"@.last() == 'a',
        "Pods"@.len() == 4 && "Pods"@[2] == 'd' && "Pods"@.last() == 's',
        "Carthage"@.len() == 8 && "Carthage"@[2] == 'r' && "Carthage"@.last() == 'e',
        ".build"@.len() == 6 && ".build"@[2] == 'u' && ".build"@.last() == 'd',
        "bin"@.len() == 3 && "bin"@[2] == 'n' && "bin"@.last() == 'n',
        "obj"@.len() == 3 && "obj"@[2] == 'j' && "obj"@.last() == 'j',
        "cmake-build-*"@.len() == 13 && "cmake-build-*"@[2] == 'a'
            && "cmake-build-*"@.last() == '*',
        ".dart_tool"@.len() == 10 && ".dart_tool"@[2] == 'a' && ".dart_tool"@.last() == 'l',
        "Library"@.len() == 7 && "Library"@[2] == 'b' && "Library"@.last() == 'y',
        ".terraform"@.len() == 10 && ".terraform"@[2] == 'e' && ".terraform"@.last() == 'm',
        ".cache"@.len() == 6 && ".cache"@[2] == 'a' && ".cache"@.last() == 'e',
{
    assert("node_modules"@.len() == 12 && "node_modules"@[2] == 'd'
        && "node_modules"@.last() == 's') by {
        reveal_strlit("node_modules");
    }
    assert("bower_components"@.len() == 16 && "bower_components"@[2] == 'w'
        && "bower_components"@.last() == 's') by {
        reveal_strlit("bower_components");
    }
    assert(".next"@.len() == 5 && ".next"@[2] == 'e' && ".next"@.last() == 't') by {
        reveal_strlit(".next");
    }
    assert(".nuxt"@.len() == 5 && ".nuxt"@[2] == 'u' && ".nuxt"@.last() == 't') by {
        reveal_strlit(".nuxt");
    }
    assert(".svelte-kit"@.len() == 11 && ".svelte-kit"@[2] == 'v'
        && ".svelte-kit"@.last() == 't') by {
        reveal_strlit(".svelte-kit");
    }
    assert(".angular"@.len() == 8 && ".angular"@[2] == 'n' && ".angular"@.last() == 'r') by {
        reveal_strlit(".angular");
    }
    assert(".turbo"@.len() == 6 && ".turbo"@[2] == 'u' && ".turbo"@.last() == 'o') by {
        reveal_strlit(".turbo");
    }
    assert(".parcel-cache"@.len() == 13 && ".parcel-cache"@[2] == 'a'
        && ".parcel-cache"@.last() == 'e') by {
        reveal_strlit(".parcel-cache");
    }
    assert(".vite"@.len() == 5 && ".vite"@[2] == 'i' && ".vite"@.last() == 'e') by {
        reveal_strlit(".vite");
    }
    assert(".docusaurus"@.len() == 11 && ".docusaurus"@[2] == 'o'
        && ".docusaurus"@.last() == 's') by {
        reveal_strlit(".docusaurus");
    }
    assert("dist"@.len() == 4 && "dist"@[2] == 's' && "dist"@.last() == 't') by {
        reveal_strlit("dist");
    }
    assert("coverage"@.len() == 8 && "coverage"@[2] == 'v' && "coverage"@.last() == 'e') by {
        reveal_strlit("coverage");
    }
    assert(".nyc_output"@.len() == 11 && ".nyc_output"@[2] == 'y'
        && ".nyc_output"@.last() == 't') by {
        reveal_strlit(".nyc_output");
    }
    assert("target"@.len() == 6 && "target"@[2] == 'r' && "target"@.last() == 't') by {
        reveal_strlit("target");
    }
    assert("__pycache__"@.len() == 11 && "__pycache__"@[2] == 'p'
        && "__pycache__"@.last() == '_') by {
        reveal_strlit("__pycache__");
    }
    assert(".pytest_cache"@.len() == 13 && ".pytest_cache"@[2] == 'y'
        && ".pytest_cache"@.last() == 'e') by {
        reveal_strlit(".pytest_cache");
    }
    assert(".mypy_cache"@.len() == 11 && ".mypy_cache"@[2] == 'y'
        && ".mypy_cache"@.last() == 'e') by {
        reveal_strlit(".mypy_cache");
    }
    assert(".ruff_cache"@.len() == 11 && ".ruff_cache"@[2] == 'u'
        && ".ruff_cache"@.last() == 'e') by {
        reveal_strlit(".ruff_cache");
    }
    assert(".ipynb_checkpoints"@.len() == 18 && ".ipynb_checkpoints"@[2] == 'p'
        && ".ipynb_checkpoints"@.last() == 's') by {
        reveal_strlit(".ipynb_checkpoints");
    }
    assert(".venv"@.len() == 5 && ".venv"@[2] == 'e' && ".venv"@.last() == 'v') by {
        reveal_strlit(".venv");
    }
    assert("venv"@.len() == 4 && "venv"@[2] == 'n' && "venv"@.last() == 'v') by {
        reveal_strlit("venv");
    }
    assert("env"@.len() == 3 && "env"@[2] == 'v' && "env"@.last() == 'v') by {
        reveal_strlit("env");
    }
    assert(".tox"@.len() == 4 && ".tox"@[2] == 'o' && ".tox"@.last() == 'x') by {
        reveal_strlit(".tox");
    }
    assert(".eggs"@.len() == 5 && ".eggs"@[2] == 'g' && ".eggs"@.last() == 's') by {
        reveal_strlit(".eggs");
    }
    assert("build"@.len() == 5 && "build"@[2] == 'i' && "build"@.last() == 'd') by {
        reveal_strlit("build");
    }
    assert(".gradle"@.len() == 7 && ".gradle"@[2] == 'r' && ".gradle"@.last() == 'e') by {
        reveal_strlit(".gradle");
    }
    assert("DerivedData"@.len() == 11 && "DerivedData"@[2] == 'r'
        && "DerivedData"@.last() == 'a') by {
        reveal_strlit("DerivedData");
    }
    assert("Pods"@.len() == 4 && "Pods"@[2] == 'd' && "Pods"@.last() == 's') by {
        reveal_strlit("Pods");
    }
    assert("Carthage"@.len() == 8 && "Carthage"@[2] == 'r' && "Carthage"@.last() == 'e') by {
        reveal_strlit("Carthage");
    }
    assert(".build"@.len() == 6 && ".build"@[2] == 'u' && ".build"@.last() == 'd') by {
        reveal_strlit(".build");
    }
    assert("bin"@.len() == 3 && "bin"@[2] == 'n' && "bin"@.last() == 'n') by {
        reveal_strlit("bin");
    }
    assert("obj"@.len() == 3 && "obj"@[2] == 'j' && "obj"@.last() == 'j') by {
        reveal_strlit("obj");
    }
    assert("cmake-build-*"@.len() == 13 && "cmake-build-*"@[2] == 'a'
        && "cmake-build-*"@.last() == '*') by {
        reveal_strlit("cmake-build-*");
    }
    assert(".dart_tool"@.len() == 10 && ".dart_tool"@[2] == 'a' && ".dart_tool"@.last() == 'l') by {
        reveal_strlit(".dart_tool");
    }
    assert("Library"@.len() == 7 && "Library"@[2] == 'b' && "Library"@.last() == 'y') by {
        reveal_strlit("Library");
    }
    assert(".terraform"@.len() == 10 && ".terraform"@[2] == 'e' && ".terraform"@.last() == 'm') by {
        reveal_strlit(".terraform");
    }
    assert(".cache"@.len() == 6 && ".cache"@[2] == 'a' && ".cache"@.last() == 'e') by {
        reveal_strlit(".cache");
    }
}

/// Whether the name alone tells a cache.
pub open spec fn tells_by_itself(name: Seq<char>) -> bool {
    ||| name == "node_modules"@
    ||| name == "bower_components"@
    ||| name == "__pycache__"@
    ||| name == ".pytest_cache"@
    ||| name == ".mypy_cache"@
    ||| name == ".ruff_cache"@
    ||| name == ".ipynb_checkpoints"@
    ||| name == ".venv"@
    ||| name == "DerivedData"@
    ||| name == ".terraform"@
}

/// Only the names of package, byte code and tool caches that nothing else bears tell a
/// cache by themselves. A directory of any other name is one only where something beside
/// it or in it shows that it is.
pub proof fn law_other_names_need_evidence(
    name: Seq<char>,
    siblings: Option<Seq<Seq<char>>>,
    children: Seq<Seq<char>>,
)
    ensures
        tells_by_itself(name) ==> rules::classified(name, siblings, children) is Some,
        rules::classified(name, siblings, children) matches Some(r) ==> tells_by_itself(name)
            || r.sibling_any.len() + r.sibling_ext.len() + r.child_any.len() > 0,
        !tells_by_itself(name) && children.len() == 0 && (siblings matches Some(s) ==> s.len() == 0)
            ==> rules::classified(name, siblings, children) is None,
{
    lemma_table();
    lemma_names();
    law_cache_meets_its_rule(name, siblings, children);
    if let Some(r) = rules::classified(name, siblings, children) {
        let i = choose|i: int| 0 <= i < rules::all_rules().len() && rules::all_rules()[i] == r;
        lemma_one_wildcard(rules::all_rules(), i);
        lemma_bare_rule(i, name);
    }
    if tells_by_itself(name) {
        lemma_told_by_name(name, siblings, children);
    }
}

/// A rule without demands is one on a name that tells a cache by itself.
proof fn lemma_bare_rule(i: int, name: Seq<char>)
    requires
        0 <= i < rules::all_rules().len(),
    ensures
        ({
            let r = rules::all_rules()[i];
            r.name == name && r.sibling_any.len() + r.sibling_ext.len() + r.child_any.len() == 0
                ==> tells_by_itself(name)
        }),
        ({
            let r = rules::all_rules()[i];
            r.name.last() == '*' ==> r.sibling_any.len() > 0
        }),
{
    lemma_table();
    lemma_names();
    lemma_one_wildcard(rules::all_rules(), i);
    let all = rules::all_rules();
    assert(all[2].sibling_any.len() > 0);
    assert(all[3].sibling_any.len() > 0);
    assert(all[4].sibling_any.len() > 0);
    assert(all[5].sibling_any.len() > 0);
    assert(all[6].sibling_any.len() > 0);
    assert(all[7].sibling_any.len() > 0);
    assert(all[8].sibling_any.len() > 0);
    assert(all[9].sibling_any.len() > 0);
    assert(all[10].sibling_any.len() > 0);
    assert(all[11].sibling_any.len() > 0);
    assert(all[12].sibling_any.len() > 0);
    assert(all[13].sibling_any.len() > 0);
    assert(all[20].child_any.len() > 0);
    assert(all[21].child_any.len() > 0);
    assert(all[22].sibling_any.len() > 0);
    assert(all[23].sibling_any.len() > 0);
    assert(all[24].sibling_any.len() > 0);
    assert(all[25].sibling_any.len() > 0);
    assert(all[26].sibling_any.len() > 0);
    assert(all[27].sibling_any.len() > 0);
    assert(all[29].sibling_any.len() > 0);
    assert(all[30].sibling_any.len() > 0);
    assert(all[31].sibling_any.len() > 0);
    assert(all[32].child_any.len() > 0);
    assert(all[33].child_any.len() > 0);
    assert(all[34].sibling_any.len() > 0);
    assert(all[35].sibling_any.len() > 0);
    assert(all[36].sibling_any.len() > 0);
    assert(all[37].sibling_any.len() > 0);
    assert(all[38].sibling_any.len() > 0);
    assert(all[40].sibling_any.len() > 0);
    assert(all[41].sibling_any.len() > 0);
}

proof fn lemma_told_by_name(
    name: Seq<char>,
    siblings: Option<Seq<Seq<char>>>,
    children: Seq<Seq<char>>,
)
    requires
        tells_by_itself(name),
    ensures
        rules::classified(name, siblings, children) is Some,
{
    lemma_table();
    lemma_names();
    if name == "node_modules"@ {
        lemma_one_wildcard(rules::all_rules(), 0);
        law_met_rule_makes_a_cache(name, siblings, children, 0);
    }
    if name == "bower_components"@ {
        lemma_one_wildcard(rules::all_rules(), 1);
        law_met_rule_makes_a_cache(name, siblings, children, 1);
    }
    if name == "__pycache__"@ {
        lemma_one_wildcard(rules::all_rules(), 14);
        law_met_rule_makes_a_cache(name, siblings, children, 14);
    }
    if name == ".pytest_cache"@ {
        lemma_one_wildcard(rules::all_rules(), 15);
        law_met_rule_makes_a_cache(name, siblings, children, 15);
    }
    if name == ".mypy_cache"@ {
        lemma_one_wildcard(rules::all_rules(), 16);
        law_met_rule_makes_a_cache(name, siblings, children, 16);
    }
    if name == ".ruff_cache"@ {
        lemma_one_wildcard(rules::all_rules(), 17);
        law_met_rule_makes_a_cache(name, siblings, children, 17);
    }
    if name == ".ipynb_checkpoints"@ {
        lemma_one_wildcard(rules::all_rules(), 18);
        law_met_rule_makes_a_cache(name, siblings, children, 18);
    }
    if name == ".venv"@ {
        lemma_one_wildcard(rules::all_rules(), 19);
        law_met_rule_makes_a_cache(name, siblings, children, 19);
    }
    if name == "DerivedData"@ {
        lemma_one_wildcard(rules::all_rules(), 28);
        law_met_rule_makes_a_cache(name, siblings, children, 28);
    }
    if name == ".terraform"@ {
        lemma_one_wildcard(rules::all_rules(), 39);
        law_met_rule_makes_a_cache(name, siblings, children, 39);
    }
}

/// The rules that bear the names that are in common use for other things.
proof fn lemma_whose_name(rs: Seq<RuleView>, i: int, name: Seq<char>)
    requires
        named_so(rs),
        0 <= i < rs.len(),
        rules::name_fits(rs[i], name),
    ensures
        name == "venv"@ ==> i == 20,
        name == "env"@ ==> i == 21,
        name == "bin"@ ==> i == 32,
        name == "obj"@ ==> i == 33,
        name == "Library"@ ==> i == 38,
        name == "target"@ ==> i == 13 || i == 27,
        name == "build"@ ==> i == 24 || i == 26 || i == 34 || i == 37,
        name == "dist"@ ==> i == 10 || i == 41,
        name == "coverage"@ ==> i == 11,
        name == "Pods"@ ==> i == 29,
        name == "Carthage"@ ==> i == 30,
        name == ".cache"@ ==> i == 40,
        name == ".next"@ ==> i == 2,
        name == ".nuxt"@ ==> i == 3,
        name == ".svelte-kit"@ ==> i == 4,
        name == ".angular"@ ==> i == 5,
        name == ".turbo"@ ==> i == 6,
        name == ".parcel-cache"@ ==> i == 7,
        name == ".vite"@ ==> i == 8,
        name == ".docusaurus"@ ==> i == 9,
        name == ".nyc_output"@ ==> i == 12,
        name == ".tox"@ ==> i == 22,
        name == ".eggs"@ ==> i == 23,
        name == ".gradle"@ ==> i == 25,
        name == ".build"@ ==> i == 31,
        name == ".dart_tool"@ ==> i == 36,
{
    lemma_letters();
    lemma_one_wildcard(rs, i);
    assert(".parcel-cache"@[0] != "cmake-build-*"@[0]) by {
        reveal_strlit(".parcel-cache");
        reveal_strlit("cmake-build-*");
    }
    assert(rs[35].name.drop_last()[0] == rs[35].name[0]);
}

/// Whether `name` stands beside the directory.
pub open spec fn beside(siblings: Option<Seq<Seq<char>>>, name: Seq<char>) -> bool {
    siblings matches Some(s) && s.contains(name)
}

/// Whether a name that ends with `ext` stands beside the directory.
pub open spec fn ends_beside(siblings: Option<Seq<Seq<char>>>, ext: Seq<char>) -> bool {
    siblings matches Some(s) && exists|i: int|
        0 <= i < s.len() && ext.is_suffix_of(#[trigger] s[i])
}

/// When one of `any` is among `names`.
proof fn lemma_some_of(names: Seq<Seq<char>>, any: Seq<Seq<char>>)
    ensures
        rules::some_name(names, any, Seq::empty()) <==> exists|k: int|
            0 <= k < any.len() && names.contains(#[trigger] any[k]),
{
    let e = Seq::<Seq<char>>::empty();
    if rules::some_name(names, any, e) {
        let i = choose|i: int|
            0 <= i < names.len() && #[trigger] rules::name_wanted(names[i], any, e);
        let k = any.index_of(names[i]);
        assert(any.contains(names[i]));
        assert(names.contains(any[k]));
    }
    if exists|k: int| 0 <= k < any.len() && names.contains(#[trigger] any[k]) {
        let k = choose|k: int| 0 <= k < any.len() && names.contains(#[trigger] any[k]);
        let i = names.index_of(any[k]);
        assert(any.contains(names[i]));
        assert(rules::name_wanted(names[i], any, e));
    }
}

/// When one of `names` ends with one of `ext`.
proof fn lemma_some_end(names: Seq<Seq<char>>, ext: Seq<Seq<char>>)
    ensures
        rules::some_name(names, Seq::empty(), ext) <==> exists|k: int|
            0 <= k < ext.len() && ends_beside(Some(names), #[trigger] ext[k]),
{
    let e = Seq::<Seq<char>>::empty();
    if rules::some_name(names, e, ext) {
        let i = choose|i: int|
            0 <= i < names.len() && #[trigger] rules::name_wanted(names[i], e, ext);
        let k = choose|k: int| 0 <= k < ext.len() && (#[trigger] ext[k]).is_suffix_of(names[i]);
        assert(ends_beside(Some(names), ext[k]));
    }
    if exists|k: int| 0 <= k < ext.len() && ends_beside(Some(names), #[trigger] ext[k]) {
        let k = choose|k: int| 0 <= k < ext.len() && ends_beside(Some(names), #[trigger] ext[k]);
        let i = choose|i: int| 0 <= i < names.len() && ext[k].is_suffix_of(#[trigger] names[i]);
        assert(rules::name_wanted(names[i], e, ext));
    }
}

/// When a rule without wildcard that looks for names alone fits.
proof fn lemma_demands(
    r: RuleView,
    siblings: Option<Seq<Seq<char>>>,
    children: Seq<Seq<char>>,
)
    requires
        r.sibling_any.len() == 0 || r.sibling_ext.len() == 0,
        r.name.len() > 0 && r.name.last() != '*',
    ensures
        rules::rule_fits(r, r.name, siblings, children) <==> {
            &&& r.sibling_any.len() > 0 ==> exists|k: int|
                0 <= k < r.sibling_any.len() && beside(siblings, #[trigger] r.sibling_any[k])
            &&& r.sibling_ext.len() > 0 ==> exists|k: int|
                0 <= k < r.sibling_ext.len() && ends_beside(siblings, #[trigger] r.sibling_ext[k])
            &&& r.child_any.len() > 0 ==> exists|k: int|
                0 <= k < r.child_any.len() && children.contains(#[trigger] r.child_any[k])
        },
{
    lemma_some_of(children, r.child_any);
    if let Some(s) = siblings {
        if r.sibling_ext.len() == 0 {
            assert(r.sibling_ext =~= Seq::empty());
            lemma_some_of(s, r.sibling_any);
        } else {
            assert(r.sibling_any =~= Seq::empty());
            lemma_some_end(s, r.sibling_ext);
        }
    }
}

/// Where in the table the rule stands that makes the directory a cache.
proof fn lemma_place(
    name: Seq<char>,
    siblings: Option<Seq<Seq<char>>>,
    children: Seq<Seq<char>>,
) -> (i: int)
    requires
        rules::classified(name, siblings, children) is Some,
    ensures
        0 <= i < rules::all_rules().len(),
        rules::classified(name, siblings, children) == Some(rules::all_rules()[i]),
        rules::rule_fits(rules::all_rules()[i], name, siblings, children),
        forall|j: int|
            0 <= j < i ==> !rules::rule_fits(
                #[trigger] rules::all_rules()[j],
                name,
                siblings,
                children,
            ),
{
    let all = rules::all_rules();
    lemma_first_fit(all, name, siblings, children);
    let r = rules::classified(name, siblings, children)->0;
    choose|i: int|
        0 <= i < all.len() && #[trigger] all[i] == r && rules::rule_fits(
            r,
            name,
            siblings,
            children,
        ) && forall|j: int|
            0 <= j < i ==> !rules::rule_fits(#[trigger] all[j], name, siblings, children)
}

/// `venv` and `env` are virtual environments where `pyvenv.cfg` is in them, and nothing
/// to clear otherwise, whatever stands beside them.
pub proof fn law_environments_hold_their_mark(
    siblings: Option<Seq<Seq<char>>>,
    children: Seq<Seq<char>>,
)
    ensures
        rules::classified("venv"@, siblings, children) is Some
            <==> children.contains("pyvenv.cfg"@),
        rules::classified("env"@, siblings, children) is Some <==> children.contains("pyvenv.cfg"@),
{
    lemma_table();
    lemma_names();
    lemma_letters();
    let all = rules::all_rules();
    lemma_first_fit(all, "venv"@, siblings, children);
    if let Some(r) = rules::classified("venv"@, siblings, children) {
        let i = lemma_place("venv"@, siblings, children);
        lemma_whose_name(all, i, "venv"@);
    }
    lemma_demands(all[20], siblings, children);
    assert(all[20].child_any.len() == 1);
    assert(all[20].child_any[0] == "pyvenv.cfg"@);
    lemma_first_fit(all, "env"@, siblings, children);
    if let Some(r) = rules::classified("env"@, siblings, children) {
        let i = lemma_place("env"@, siblings, children);
        lemma_whose_name(all, i, "env"@);
    }
    lemma_demands(all[21], siblings, children);
    assert(all[21].child_any.len() == 1);
    assert(all[21].child_any[0] == "pyvenv.cfg"@);
}

/// `bin` and `obj` are build output where a .NET project stands beside them and the
/// directory of a configuration is in them, and nothing to clear otherwise.
pub proof fn law_dotnet_output_stands_by_its_project(
    siblings: Option<Seq<Seq<char>>>,
    children: Seq<Seq<char>>,
)
    ensures
        rules::classified("bin"@, siblings, children) is Some <==> (children.contains("Debug"@)
            || children.contains("Release"@)) && (
        ends_beside(siblings, ".csproj"@) || ends_beside(siblings, ".fsproj"@)
            || ends_beside(siblings, ".vbproj"@) || ends_beside(siblings, ".sln"@)),
        rules::classified("obj"@, siblings, children) is Some <==> (children.contains("Debug"@)
            || children.contains("Release"@)) && (
        ends_beside(siblings, ".csproj"@) || ends_beside(siblings, ".fsproj"@)
            || ends_beside(siblings, ".vbproj"@) || ends_beside(siblings, ".sln"@)),
{
    lemma_table();
    lemma_names();
    lemma_letters();
    let all = rules::all_rules();
    lemma_first_fit(all, "bin"@, siblings, children);
    if let Some(r) = rules::classified("bin"@, siblings, children) {
        let i = lemma_place("bin"@, siblings, children);
        lemma_whose_name(all, i, "bin"@);
    }
    lemma_demands(all[32], siblings, children);
    assert(all[32].sibling_ext.len() == 4);
    assert(all[32].sibling_ext[0] == ".csproj"@);
    assert(all[32].sibling_ext[1] == ".fsproj"@);
    assert(all[32].sibling_ext[2] == ".vbproj"@);
    assert(all[32].sibling_ext[3] == ".sln"@);
    assert(all[32].child_any.len() == 2);
    assert(all[32].child_any[0] == "Debug"@);
    assert(all[32].child_any[1] == "Release"@);
    lemma_first_fit(all, "obj"@, siblings, children);
    if let Some(r) = rules::classified("obj"@, siblings, children) {
        let i = lemma_place("obj"@, siblings, children);
        lemma_whose_name(all, i, "obj"@);
    }
    lemma_demands(all[33], siblings, children);
    assert(all[33].sibling_ext.len() == 4);
    assert(all[33].sibling_ext[0] == ".csproj"@);
    assert(all[33].sibling_ext[1] == ".fsproj"@);
    assert(all[33].sibling_ext[2] == ".vbproj"@);
    assert(all[33].sibling_ext[3] == ".sln"@);
    assert(all[33].child_any.len() == 2);
    assert(all[33].child_any[0] == "Debug"@);
    assert(all[33].child_any[1] == "Release"@);
}

/// `Library` is the cache of a Unity project where the settings of one stand beside it
/// and one of the parts of that cache is in it, and nothing to clear otherwise.
pub proof fn law_library_belongs_to_a_unity_project(
    siblings: Option<Seq<Seq<char>>>,
    children: Seq<Seq<char>>,
)
    ensures
        rules::classified("Library"@, siblings, children) is Some
            <==> beside(siblings, "ProjectSettings"@) && (children.contains("PackageCache"@)
            || children.contains("ScriptAssemblies"@) || children.contains("ArtifactDB"@)
            || children.contains("StateCache"@)),
{
    lemma_table();
    lemma_names();
    lemma_letters();
    let all = rules::all_rules();
    lemma_first_fit(all, "Library"@, siblings, children);
    if let Some(r) = rules::classified("Library"@, siblings, children) {
        let i = lemma_place("Library"@, siblings, children);
        lemma_whose_name(all, i, "Library"@);
    }
    lemma_demands(all[38], siblings, children);
    assert(all[38].sibling_any.len() == 1);
    assert(all[38].sibling_any[0] == "ProjectSettings"@);
    assert(all[38].child_any.len() == 4);
    assert(all[38].child_any[0] == "PackageCache"@);
    assert(all[38].child_any[1] == "ScriptAssemblies"@);
    assert(all[38].child_any[2] == "ArtifactDB"@);
    assert(all[38].child_any[3] == "StateCache"@);
}

/// `target` is build output where the manifest of the tool that writes it stands beside
/// it: of Rust before the JVM.
pub proof fn law_target_stands_by_its_manifest(
    siblings: Option<Seq<Seq<char>>>,
    children: Seq<Seq<char>>,
)
    ensures
        rules::classified("target"@, siblings, children) is Some
            <==> beside(siblings, "Cargo.toml"@) || beside(siblings, "pom.xml"@),
        rules::classified("target"@, siblings, children) matches Some(r)
            ==> r.category == (if beside(siblings, "Cargo.toml"@) {
            Category::Rust
        } else {
            Category::Jvm
        }),
{
    lemma_table();
    lemma_names();
    lemma_letters();
    let all = rules::all_rules();
    lemma_first_fit(all, "target"@, siblings, children);
    if let Some(r) = rules::classified("target"@, siblings, children) {
        let i = lemma_place("target"@, siblings, children);
        lemma_whose_name(all, i, "target"@);
    }
    lemma_demands(all[13], siblings, children);
    assert(all[13].sibling_any.len() == 1);
    assert(all[13].sibling_any[0] == "Cargo.toml"@);
    lemma_demands(all[27], siblings, children);
    assert(all[27].sibling_any.len() == 1);
    assert(all[27].sibling_any[0] == "pom.xml"@);
}

/// `build` is build output where the manifest of a tool that writes it stands beside it:
/// of Python before the JVM, before CMake, before Flutter.
pub proof fn law_build_stands_by_its_manifest(
    siblings: Option<Seq<Seq<char>>>,
    children: Seq<Seq<char>>,
)
    ensures
        rules::classified("build"@, siblings, children) is Some <==> beside(siblings, "setup.py"@)
            || beside(siblings, "pyproject.toml"@) || beside(siblings, "build.gradle"@)
            || beside(siblings, "build.gradle.kts"@) || beside(siblings, "pom.xml"@)
            || beside(siblings, "CMakeLists.txt"@) || beside(siblings, "pubspec.yaml"@),
        rules::classified("build"@, siblings, children) matches Some(r)
            ==> r.category == (if beside(siblings, "setup.py"@)
            || beside(siblings, "pyproject.toml"@) {
            Category::Python
        } else if beside(siblings, "build.gradle"@) || beside(siblings, "build.gradle.kts"@)
            || beside(siblings, "pom.xml"@) {
            Category::Jvm
        } else if beside(siblings, "CMakeLists.txt"@) {
            Category::Cpp
        } else {
            Category::Flutter
        }),
{
    lemma_table();
    lemma_names();
    lemma_letters();
    let all = rules::all_rules();
    lemma_first_fit(all, "build"@, siblings, children);
    if let Some(r) = rules::classified("build"@, siblings, children) {
        let i = lemma_place("build"@, siblings, children);
        lemma_whose_name(all, i, "build"@);
    }
    lemma_demands(all[24], siblings, children);
    assert(all[24].sibling_any.len() == 2);
    assert(all[24].sibling_any[0] == "setup.py"@);
    assert(all[24].sibling_any[1] == "pyproject.toml"@);
    lemma_demands(all[26], siblings, children);
    assert(all[26].sibling_any.len() == 3);
    assert(all[26].sibling_any[0] == "build.gradle"@);
    assert(all[26].sibling_any[1] == "build.gradle.kts"@);
    assert(all[26].sibling_any[2] == "pom.xml"@);
    lemma_demands(all[34], siblings, children);
    assert(all[34].sibling_any.len() == 1);
    assert(all[34].sibling_any[0] == "CMakeLists.txt"@);
    lemma_demands(all[37], siblings, children);
    assert(all[37].sibling_any.len() == 1);
    assert(all[37].sibling_any[0] == "pubspec.yaml"@);
}

/// `dist` is build output where the manifest of a JavaScript or a Python package stands
/// beside it, the former first; `coverage` and `.cache` go by the former alone.
pub proof fn law_dist_stands_by_its_manifest(
    siblings: Option<Seq<Seq<char>>>,
    children: Seq<Seq<char>>,
)
    ensures
        rules::classified("dist"@, siblings, children) is Some
            <==> beside(siblings, "package.json"@) || beside(siblings, "setup.py"@)
            || beside(siblings, "pyproject.toml"@),
        rules::classified("dist"@, siblings, children) matches Some(r)
            ==> r.category == (if beside(siblings, "package.json"@) {
            Category::JsTs
        } else {
            Category::Python
        }),
        rules::classified("coverage"@, siblings, children) is Some
            <==> beside(siblings, "package.json"@),
        rules::classified(".cache"@, siblings, children) is Some
            <==> beside(siblings, "package.json"@),
{
    lemma_table();
    lemma_names();
    lemma_letters();
    let all = rules::all_rules();
    lemma_first_fit(all, "dist"@, siblings, children);
    if let Some(r) = rules::classified("dist"@, siblings, children) {
        let i = lemma_place("dist"@, siblings, children);
        lemma_whose_name(all, i, "dist"@);
    }
    lemma_demands(all[10], siblings, children);
    assert(all[10].sibling_any.len() == 1);
    assert(all[10].sibling_any[0] == "package.json"@);
    lemma_demands(all[41], siblings, children);
    assert(all[41].sibling_any.len() == 2);
    assert(all[41].sibling_any[0] == "setup.py"@);
    assert(all[41].sibling_any[1] == "pyproject.toml"@);
    lemma_first_fit(all, "coverage"@, siblings, children);
    if let Some(r) = rules::classified("coverage"@, siblings, children) {
        let i = lemma_place("coverage"@, siblings, children);
        lemma_whose_name(all, i, "coverage"@);
    }
    lemma_demands(all[11], siblings, children);
    assert(all[11].sibling_any.len() == 1);
    assert(all[11].sibling_any[0] == "package.json"@);
    lemma_first_fit(all, ".cache"@, siblings, children);
    if let Some(r) = rules::classified(".cache"@, siblings, children) {
        let i = lemma_place(".cache"@, siblings, children);
        lemma_whose_name(all, i, ".cache"@);
    }
    lemma_demands(all[40], siblings, children);
    assert(all[40].sibling_any.len() == 1);
    assert(all[40].sibling_any[0] == "package.json"@);
}

/// `Pods` and `Carthage` are fetched again by the list that stands beside them.
pub proof fn law_pods_stand_by_their_list(
    siblings: Option<Seq<Seq<char>>>,
    children: Seq<Seq<char>>,
)
    ensures
        rules::classified("Pods"@, siblings, children) is Some <==> beside(siblings, "Podfile"@),
        rules::classified("Carthage"@, siblings, children) is Some
            <==> beside(siblings, "Cartfile"@),
{
    lemma_table();
    lemma_names();
    lemma_letters();
    let all = rules::all_rules();
    lemma_first_fit(all, "Pods"@, siblings, children);
    if let Some(r) = rules::classified("Pods"@, siblings, children) {
        let i = lemma_place("Pods"@, siblings, children);
        lemma_whose_name(all, i, "Pods"@);
    }
    lemma_demands(all[29], siblings, children);
    assert(all[29].sibling_any.len() == 1);
    assert(all[29].sibling_any[0] == "Podfile"@);
    lemma_first_fit(all, "Carthage"@, siblings, children);
    if let Some(r) = rules::classified("Carthage"@, siblings, children) {
        let i = lemma_place("Carthage"@, siblings, children);
        lemma_whose_name(all, i, "Carthage"@);
    }
    lemma_demands(all[30], siblings, children);
    assert(all[30].sibling_any.len() == 1);
    assert(all[30].sibling_any[0] == "Cartfile"@);
}

/// The output of a web framework is a cache where the manifest of its package stands
/// beside it, and nothing to clear otherwise.
pub proof fn law_web_caches_stand_by_their_package(
    siblings: Option<Seq<Seq<char>>>,
    children: Seq<Seq<char>>,
)
    ensures
        rules::classified(".next"@, siblings, children) is Some
            <==> beside(siblings, "package.json"@),
        rules::classified(".nuxt"@, siblings, children) is Some
            <==> beside(siblings, "package.json"@),
        rules::classified(".svelte-kit"@, siblings, children) is Some
            <==> beside(siblings, "package.json"@),
        rules::classified(".angular"@, siblings, children) is Some
            <==> beside(siblings, "angular.json"@) || beside(siblings, "package.json"@),
        rules::classified(".turbo"@, siblings, children) is Some
            <==> beside(siblings, "package.json"@) || beside(siblings, "turbo.json"@),
{
    lemma_table();
    lemma_names();
    lemma_letters();
    let all = rules::all_rules();
    lemma_first_fit(all, ".next"@, siblings, children);
    if let Some(r) = rules::classified(".next"@, siblings, children) {
        let i = lemma_place(".next"@, siblings, children);
        lemma_whose_name(all, i, ".next"@);
    }
    lemma_demands(all[2], siblings, children);
    assert(all[2].sibling_any.len() == 1);
    assert(all[2].sibling_any[0] == "package.json"@);
    lemma_first_fit(all, ".nuxt"@, siblings, children);
    if let Some(r) = rules::classified(".nuxt"@, siblings, children) {
        let i = lemma_place(".nuxt"@, siblings, children);
        lemma_whose_name(all, i, ".nuxt"@);
    }
    lemma_demands(all[3], siblings, children);
    assert(all[3].sibling_any.len() == 1);
    assert(all[3].sibling_any[0] == "package.json"@);
    lemma_first_fit(all, ".svelte-kit"@, siblings, children);
    if let Some(r) = rules::classified(".svelte-kit"@, siblings, children) {
        let i = lemma_place(".svelte-kit"@, siblings, children);
        lemma_whose_name(all, i, ".svelte-kit"@);
    }
    lemma_demands(all[4], siblings, children);
    assert(all[4].sibling_any.len() == 1);
    assert(all[4].sibling_any[0] == "package.json"@);
    lemma_first_fit(all, ".angular"@, siblings, children);
    if let Some(r) = rules::classified(".angular"@, siblings, children) {
        let i = lemma_place(".angular"@, siblings, children);
        lemma_whose_name(all, i, ".angular"@);
    }
    lemma_demands(all[5], siblings, children);
    assert(all[5].sibling_any.len() == 2);
    assert(all[5].sibling_any[0] == "angular.json"@);
    assert(all[5].sibling_any[1] == "package.json"@);
    lemma_first_fit(all, ".turbo"@, siblings, children);
    if let Some(r) = rules::classified(".turbo"@, siblings, children) {
        let i = lemma_place(".turbo"@, siblings, children);
        lemma_whose_name(all, i, ".turbo"@);
    }
    lemma_demands(all[6], siblings, children);
    assert(all[6].sibling_any.len() == 2);
    assert(all[6].sibling_any[0] == "package.json"@);
    assert(all[6].sibling_any[1] == "turbo.json"@);
}

/// What a bundler or a coverage tool keeps is a cache where the manifest of its package
/// stands beside it, and nothing to clear otherwise.
pub proof fn law_bundler_caches_stand_by_their_package(
    siblings: Option<Seq<Seq<char>>>,
    children: Seq<Seq<char>>,
)
    ensures
        rules::classified(".parcel-cache"@, siblings, children) is Some
            <==> beside(siblings, "package.json"@),
        rules::classified(".vite"@, siblings, children) is Some
            <==> beside(siblings, "package.json"@),
        rules::classified(".docusaurus"@, siblings, children) is Some
            <==> beside(siblings, "package.json"@),
        rules::classified(".nyc_output"@, siblings, children) is Some
            <==> beside(siblings, "package.json"@),
{
    lemma_table();
    lemma_names();
    lemma_letters();
    let all = rules::all_rules();
    lemma_first_fit(all, ".parcel-cache"@, siblings, children);
    if let Some(r) = rules::classified(".parcel-cache"@, siblings, children) {
        let i = lemma_place(".parcel-cache"@, siblings, children);
        lemma_whose_name(all, i, ".parcel-cache"@);
    }
    lemma_demands(all[7], siblings, children);
    assert(all[7].sibling_any.len() == 1);
    assert(all[7].sibling_any[0] == "package.json"@);
    lemma_first_fit(all, ".vite"@, siblings, children);
    if let Some(r) = rules::classified(".vite"@, siblings, children) {
        let i = lemma_place(".vite"@, siblings, children);
        lemma_whose_name(all, i, ".vite"@);
    }
    lemma_demands(all[8], siblings, children);
    assert(all[8].sibling_any.len() == 1);
    assert(all[8].sibling_any[0] == "package.json"@);
    lemma_first_fit(all, ".docusaurus"@, siblings, children);
    if let Some(r) = rules::classified(".docusaurus"@, siblings, children) {
        let i = lemma_place(".docusaurus"@, siblings, children);
        lemma_whose_name(all, i, ".docusaurus"@);
    }
    lemma_demands(all[9], siblings, children);
    assert(all[9].sibling_any.len() == 1);
    assert(all[9].sibling_any[0] == "package.json"@);
    lemma_first_fit(all, ".nyc_output"@, siblings, children);
    if let Some(r) = rules::classified(".nyc_output"@, siblings, children) {
        let i = lemma_place(".nyc_output"@, siblings, children);
        lemma_whose_name(all, i, ".nyc_output"@);
    }
    lemma_demands(all[12], siblings, children);
    assert(all[12].sibling_any.len() == 1);
    assert(all[12].sibling_any[0] == "package.json"@);
}

/// What a build tool keeps is a cache where a manifest that the tool reads stands beside
/// it, and nothing to clear otherwise.
pub proof fn law_tool_caches_stand_by_their_manifest(
    siblings: Option<Seq<Seq<char>>>,
    children: Seq<Seq<char>>,
)
    ensures
        rules::classified(".tox"@, siblings, children) is Some <==> beside(siblings, "tox.ini"@)
            || beside(siblings, "setup.py"@) || beside(siblings, "pyproject.toml"@),
        rules::classified(".eggs"@, siblings, children) is Some <==> beside(siblings, "setup.py"@)
            || beside(siblings, "setup.cfg"@),
        rules::classified(".gradle"@, siblings, children) is Some
            <==> beside(siblings, "build.gradle"@) || beside(siblings, "build.gradle.kts"@)
            || beside(siblings, "settings.gradle"@) || beside(siblings, "settings.gradle.kts"@),
        rules::classified(".build"@, siblings, children) is Some
            <==> beside(siblings, "Package.swift"@),
        rules::classified(".dart_tool"@, siblings, children) is Some
            <==> beside(siblings, "pubspec.yaml"@),
{
    lemma_table();
    lemma_names();
    lemma_letters();
    let all = rules::all_rules();
    lemma_first_fit(all, ".tox"@, siblings, children);
    if let Some(r) = rules::classified(".tox"@, siblings, children) {
        let i = lemma_place(".tox"@, siblings, children);
        lemma_whose_name(all, i, ".tox"@);
    }
    lemma_demands(all[22], siblings, children);
    assert(all[22].sibling_any.len() == 3);
    assert(all[22].sibling_any[0] == "tox.ini"@);
    assert(all[22].sibling_any[1] == "setup.py"@);
    assert(all[22].sibling_any[2] == "pyproject.toml"@);
    lemma_first_fit(all, ".eggs"@, siblings, children);
    if let Some(r) = rules::classified(".eggs"@, siblings, children) {
        let i = lemma_place(".eggs"@, siblings, children);
        lemma_whose_name(all, i, ".eggs"@);
    }
    lemma_demands(all[23], siblings, children);
    assert(all[23].sibling_any.len() == 2);
    assert(all[23].sibling_any[0] == "setup.py"@);
    assert(all[23].sibling_any[1] == "setup.cfg"@);
    lemma_first_fit(all, ".gradle"@, siblings, children);
    if let Some(r) = rules::classified(".gradle"@, siblings, children) {
        let i = lemma_place(".gradle"@, siblings, children);
        lemma_whose_name(all, i, ".gradle"@);
    }
    lemma_demands(all[25], siblings, children);
    assert(all[25].sibling_any.len() == 4);
    assert(all[25].sibling_any[0] == "build.gradle"@);
    assert(all[25].sibling_any[1] == "build.gradle.kts"@);
    assert(all[25].sibling_any[2] == "settings.gradle"@);
    assert(all[25].sibling_any[3] == "settings.gradle.kts"@);
    lemma_first_fit(all, ".build"@, siblings, children);
    if let Some(r) = rules::classified(".build"@, siblings, children) {
        let i = lemma_place(".build"@, siblings, children);
        lemma_whose_name(all, i, ".build"@);
    }
    lemma_demands(all[31], siblings, children);
    assert(all[31].sibling_any.len() == 1);
    assert(all[31].sibling_any[0] == "Package.swift"@);
    lemma_first_fit(all, ".dart_tool"@, siblings, children);
    if let Some(r) = rules::classified(".dart_tool"@, siblings, children) {
        let i = lemma_place(".dart_tool"@, siblings, children);
        lemma_whose_name(all, i, ".dart_tool"@);
    }
    lemma_demands(all[36], siblings, children);
    assert(all[36].sibling_any.len() == 1);
    assert(all[36].sibling_any[0] == "pubspec.yaml"@);
}

/// The ecosystem that a cache of the name belongs to, where the name alone decides it.
pub open spec fn ecosystem(name: Seq<char>) -> Option<Category> {
    if name == "node_modules"@
        || name == "bower_components"@
        || name == ".next"@
        || name == ".nuxt"@
        || name == ".svelte-kit"@
        || name == ".angular"@
        || name == ".turbo"@
        || name == ".parcel-cache"@
        || name == ".vite"@
        || name == ".docusaurus"@
        || name == "coverage"@
        || name == ".nyc_output"@ {
        Some(Category::JsTs)
    } else if name == "__pycache__"@
        || name == ".pytest_cache"@
        || name == ".mypy_cache"@
        || name == ".ruff_cache"@
        || name == ".ipynb_checkpoints"@
        || name == ".venv"@
        || name == "venv"@
        || name == "env"@
        || name == ".tox"@
        || name == ".eggs"@ {
        Some(Category::Python)
    } else if name == ".gradle"@ {
        Some(Category::Jvm)
    } else if name == "DerivedData"@
        || name == "Pods"@
        || name == "Carthage"@
        || name == ".build"@ {
        Some(Category::Apple)
    } else if name == "bin"@
        || name == "obj"@ {
        Some(Category::Dotnet)
    } else if name == ".dart_tool"@ {
        Some(Category::Flutter)
    } else if name == "Library"@ {
        Some(Category::Unity)
    } else if name == ".terraform"@ {
        Some(Category::Terraform)
    } else if name == ".cache"@ {
        Some(Category::Misc)
    } else {
        None
    }
}

proof fn lemma_whose_bare_name(rs: Seq<RuleView>, i: int, name: Seq<char>)
    requires
        named_so(rs),
        0 <= i < rs.len(),
        rules::name_fits(rs[i], name),
    ensures
        name == "node_modules"@ ==> i == 0,
        name == "bower_components"@ ==> i == 1,
        name == "__pycache__"@ ==> i == 14,
        name == ".pytest_cache"@ ==> i == 15,
        name == ".mypy_cache"@ ==> i == 16,
        name == ".ruff_cache"@ ==> i == 17,
        name == ".ipynb_checkpoints"@ ==> i == 18,
        name == ".venv"@ ==> i == 19,
        name == "DerivedData"@ ==> i == 28,
        name == ".terraform"@ ==> i == 39,
{
    lemma_letters();
    lemma_one_wildcard(rs, i);
    if i == 35 {
        let w = rs[35].name.drop_last();
        assert(w[2] == 'a');
        assert(name.take(w.len() as int)[2] == w[2]);
    }
}

/// A cache whose name alone tells its ecosystem is listed under that one.
pub proof fn law_caches_belong_to_their_ecosystem(
    name: Seq<char>,
    siblings: Option<Seq<Seq<char>>>,
    children: Seq<Seq<char>>,
)
    ensures
        rules::classified(name, siblings, children) matches Some(r)
            ==> (ecosystem(name) matches Some(
            c,
        ) ==> r.category == c),
{
    lemma_table();
    lemma_names();
    if rules::classified(name, siblings, children) is Some && ecosystem(name) is Some {
        let all = rules::all_rules();
        let i = lemma_place(name, siblings, children);
        lemma_whose_name(all, i, name);
        lemma_whose_bare_name(all, i, name);
    }
}

/// A directory whose name begins with `cmake-build-` is build output of CMake where its list
/// stands beside it, and no cache otherwise.
pub proof fn law_cmake_output_stands_by_its_list(
    rest: Seq<char>,
    siblings: Option<Seq<Seq<char>>>,
    children: Seq<Seq<char>>,
)
    ensures
        rules::classified("cmake-build-"@ + rest, siblings, children) is Some <==> beside(
            siblings,
            "CMakeLists.txt"@,
        ),
        rules::classified("cmake-build-"@ + rest, siblings, children) matches Some(r) ==> r.category
            == Category::Cpp,
{
    lemma_table();
    lemma_names();
    let all = rules::all_rules();
    let name = "cmake-build-"@ + rest;
    lemma_first_fit(all, name, siblings, children);
    reveal_strlit("cmake-build-");
    reveal_strlit("cmake-build-*");
    assert(all[35].name.drop_last() =~= "cmake-build-"@);
    assert(name.take(12) =~= "cmake-build-"@);
    assert("cmake-build-"@.is_prefix_of(name));
    assert(rules::name_fits(all[35], name));
    assert(all[35].sibling_any.len() == 1);
    assert(all[35].sibling_any[0] == "CMakeLists.txt"@);
    if let Some(s) = siblings {
        lemma_some_of(s, all[35].sibling_any);
    }
    if rules::classified(name, siblings, children) is Some {
        let i = lemma_place(name, siblings, children);
        assert(name[0] == 'c' && name[2] == 'a');
        lemma_no_other_cmake(all, i, name);
    }
}

proof fn lemma_no_other_cmake(rs: Seq<RuleView>, i: int, name: Seq<char>)
    requires
        named_so(rs),
        0 <= i < rs.len(),
        rules::name_fits(rs[i], name),
        name.len() >= 12,
        name[0] == 'c',
        name[2] == 'a',
    ensures
        i == 35,
{
    lemma_letters();
    lemma_one_wildcard(rs, i);
    assert(".parcel-cache"@[0] == '.') by {
        reveal_strlit(".parcel-cache");
    }
}

/// A category is labelled by the languages and tools that it is for.
pub proof fn law_labels_name_the_ecosystem(c: Category)
    ensures
        match c {
            Category::JsTs => begins_and_ends(rules::category_label(c), "JavaScript"@, "TypeScript"@),
            Category::Rust => begins_and_ends(rules::category_label(c), "Rust"@, "Rust"@),
            Category::Python => begins_and_ends(rules::category_label(c), "Python"@, "Python"@),
            Category::Jvm => begins_and_ends(rules::category_label(c), "JVM"@, "(Gradle / Maven)"@),
            Category::Apple => begins_and_ends(rules::category_label(c), "Apple"@, "Swift"@),
            Category::Dotnet => begins_and_ends(rules::category_label(c), ".NET"@, ".NET"@),
            Category::Cpp => begins_and_ends(rules::category_label(c), "C"@, "C++"@),
            Category::Flutter => begins_and_ends(rules::category_label(c), "Flutter"@, "Dart"@),
            Category::Unity => begins_and_ends(rules::category_label(c), "Unity"@, "Unity"@),
            Category::Terraform => begins_and_ends(rules::category_label(c), "Terraform"@, "Terraform"@),
            Category::Misc => begins_and_ends(rules::category_label(c), "Other"@, "caches"@),
        },
{
    reveal_strlit("JavaScript / TypeScript");
    reveal_strlit("JavaScript");
    reveal_strlit("TypeScript");
    reveal_strlit("Rust");
    reveal_strlit("Python");
    reveal_strlit("JVM (Gradle / Maven)");
    reveal_strlit("JVM");
    reveal_strlit("(Gradle / Maven)");
    reveal_strlit("Apple / Xcode / Swift");
    reveal_strlit("Apple");
    reveal_strlit("Swift");
    reveal_strlit(".NET");
    reveal_strlit("C / C++");
    reveal_strlit("C");
    reveal_strlit("C++");
    reveal_strlit("Flutter / Dart");
    reveal_strlit("Flutter");
    reveal_strlit("Dart");
    reveal_strlit("Unity");
    reveal_strlit("Terraform");
    reveal_strlit("Other build caches");
    reveal_strlit("Other");
    reveal_strlit("caches");
    let t = rules::category_label(c);
    match c {
        Category::JsTs => {
            assert(t.take(10) =~= "JavaScript"@);
            assert(t.subrange(t.len() - 10, t.len() as int) =~= "TypeScript"@);
        },
        Category::Rust => {
            assert(t.take(4) =~= "Rust"@);
            assert(t.subrange(t.len() - 4, t.len() as int) =~= "Rust"@);
        },
        Category::Python => {
            assert(t.take(6) =~= "Python"@);
            assert(t.subrange(t.len() - 6, t.len() as int) =~= "Python"@);
        },
        Category::Jvm => {
            assert(t.take(3) =~= "JVM"@);
            assert(t.subrange(t.len() - 16, t.len() as int) =~= "(Gradle / Maven)"@);
        },
        Category::Apple => {
            assert(t.take(5) =~= "Apple"@);
            assert(t.subrange(t.len() - 5, t.len() as int) =~= "Swift"@);
        },
        Category::Dotnet => {
            assert(t.take(4) =~= ".NET"@);
            assert(t.subrange(t.len() - 4, t.len() as int) =~= ".NET"@);
        },
        Category::Cpp => {
            assert(t.take(1) =~= "C"@);
            assert(t.subrange(t.len() - 3, t.len() as int) =~= "C++"@);
        },
        Category::Flutter => {
            assert(t.take(7) =~= "Flutter"@);
            assert(t.subrange(t.len() - 4, t.len() as int) =~= "Dart"@);
        },
        Category::Unity => {
            assert(t.take(5) =~= "Unity"@);
            assert(t.subrange(t.len() - 5, t.len() as int) =~= "Unity"@);
        },
        Category::Terraform => {
            assert(t.take(9) =~= "Terraform"@);
            assert(t.subrange(t.len() - 9, t.len() as int) =~= "Terraform"@);
        },
        Category::Misc => {
            assert(t.take(5) =~= "Other"@);
            assert(t.subrange(t.len() - 6, t.len() as int) =~= "caches"@);
        },
    }
}

/// Whether the text begins with the one and ends with the other.
pub open spec fn begins_and_ends(t: Seq<char>, front: Seq<char>, end: Seq<char>) -> bool {
    front.is_prefix_of(t) && end.is_suffix_of(t)
}

/// No two categories share a colour.
pub proof fn law_colours_tell_categories_apart(a: Category, b: Category)
    ensures
        rules::category_rgb(a) == rules::category_rgb(b) ==> a == b,
{
}

} // verus!
