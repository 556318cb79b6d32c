//! The rules that tell regenerable developer caches.
//!
//! Each rule matches a directory by name, optionally gated by a sibling or a child
//! (such as `target` only next to `Cargo.toml`), so that unrelated folders that
//! happen to share a name are not flagged.

use vstd::prelude::*;

use crate::text;
use crate::text::{ends_with, starts_with, str_eq};

verus! {

/// The ecosystem that a cache belongs to.
#[derive(Clone, Copy, PartialEq, Eq, Hash, Debug, Structural)]
pub enum Category {
    JsTs,
    Rust,
    Python,
    Jvm,
    Apple,
    Dotnet,
    Cpp,
    Flutter,
    Unity,
    Terraform,
    Misc,
}

/// The name shown for a category.
pub open spec fn category_label(c: Category) -> Seq<char> {
    match c {
        Category::JsTs => "JavaScript / TypeScript"@,
        Category::Rust => "Rust"@,
        Category::Python => "Python"@,
        Category::Jvm => "JVM (Gradle / Maven)"@,
        Category::Apple => "Apple / Xcode / Swift"@,
        Category::Dotnet => ".NET"@,
        Category::Cpp => "C / C++"@,
        Category::Flutter => "Flutter / Dart"@,
        Category::Unity => "Unity"@,
        Category::Terraform => "Terraform"@,
        Category::Misc => "Other build caches"@,
    }
}

/// The color of a category: red, green, blue.
pub open spec fn category_rgb(c: Category) -> (u8, u8, u8) {
    match c {
        Category::JsTs => (0xF7, 0xDF, 0x1E),
        Category::Rust => (0xCE, 0x42, 0x2B),
        Category::Python => (0x4B, 0x8B, 0xBE),
        Category::Jvm => (0x5B, 0x8A, 0x72),
        Category::Apple => (0x9C, 0x9C, 0x9C),
        Category::Dotnet => (0x68, 0x21, 0x7A),
        Category::Cpp => (0x00, 0x59, 0x9C),
        Category::Flutter => (0x02, 0x75, 0xC8),
        Category::Unity => (0x55, 0x55, 0x55),
        Category::Terraform => (0x84, 0x4F, 0xBA),
        Category::Misc => (0x88, 0x88, 0x88),
    }
}

impl Category {
    /// The name shown for the category.
    pub fn label(self) -> (r: &'static str)
        ensures
            r@ == category_label(self),
    {
        match self {
            Category::JsTs => "JavaScript / TypeScript",
            Category::Rust => "Rust",
            Category::Python => "Python",
            Category::Jvm => "JVM (Gradle / Maven)",
            Category::Apple => "Apple / Xcode / Swift",
            Category::Dotnet => ".NET",
            Category::Cpp => "C / C++",
            Category::Flutter => "Flutter / Dart",
            Category::Unity => "Unity",
            Category::Terraform => "Terraform",
            Category::Misc => "Other build caches",
        }
    }

    /// The color of the category: red, green, blue.
    pub fn rgb(self) -> (r: (u8, u8, u8))
        ensures
            r == category_rgb(self),
    {
        match self {
            Category::JsTs => (0xF7, 0xDF, 0x1E),
            Category::Rust => (0xCE, 0x42, 0x2B),
            Category::Python => (0x4B, 0x8B, 0xBE),
            Category::Jvm => (0x5B, 0x8A, 0x72),
            Category::Apple => (0x9C, 0x9C, 0x9C),
            Category::Dotnet => (0x68, 0x21, 0x7A),
            Category::Cpp => (0x00, 0x59, 0x9C),
            Category::Flutter => (0x02, 0x75, 0xC8),
            Category::Unity => (0x55, 0x55, 0x55),
            Category::Terraform => (0x84, 0x4F, 0xBA),
            Category::Misc => (0x88, 0x88, 0x88),
        }
    }
}

/// When a directory is a cache.
pub struct Rule {
    /// Directory name to match. A trailing `*` means prefix match.
    pub name: &'static str,
    pub category: Category,
    /// Require any of these as a sibling (exact file or directory name)...
    pub sibling_any: Vec<&'static str>,
    /// ...or a sibling whose name ends with one of these.
    pub sibling_ext: Vec<&'static str>,
    /// Require any of these as a direct child of the matched directory.
    pub child_any: Vec<&'static str>,
    pub note: &'static str,
}

/// What a rule says.
#[verifier::ext_equal]
pub struct RuleView {
    pub name: Seq<char>,
    pub category: Category,
    pub sibling_any: Seq<Seq<char>>,
    pub sibling_ext: Seq<Seq<char>>,
    pub child_any: Seq<Seq<char>>,
    pub note: Seq<char>,
}

impl View for Rule {
    type V = RuleView;

    open spec fn view(&self) -> RuleView {
        RuleView {
            name: self.name@,
            category: self.category,
            sibling_any: text::slices(self.sibling_any@),
            sibling_ext: text::slices(self.sibling_ext@),
            child_any: text::slices(self.child_any@),
            note: self.note@,
        }
    }
}

/// The rules, each as what it says.
pub open spec fn rules_view(v: Seq<Rule>) -> Seq<RuleView> {
    v.map_values(|r: Rule| r@)
}

/// A rule on the name and the siblings.
pub open spec fn by_sibling(
    name: Seq<char>,
    category: Category,
    sibling_any: Seq<Seq<char>>,
    note: Seq<char>,
) -> RuleView {
    RuleView {
        name,
        category,
        sibling_any,
        sibling_ext: Seq::empty(),
        child_any: Seq::empty(),
        note,
    }
}

/// A rule on the name alone.
pub open spec fn by_name(name: Seq<char>, category: Category, note: Seq<char>) -> RuleView {
    by_sibling(name, category, Seq::empty(), note)
}

fn sibling_rule(
    name: &'static str,
    category: Category,
    sibling_any: Vec<&'static str>,
    note: &'static str,
) -> (r: Rule)
    ensures
        r@ == by_sibling(name@, category, text::slices(sibling_any@), note@),
{
    let r = Rule {
        name,
        category,
        sibling_any,
        sibling_ext: Vec::new(),
        child_any: Vec::new(),
        note,
    };
    assert(text::slices(r.sibling_ext@) =~= Seq::<Seq<char>>::empty());
    assert(text::slices(r.child_any@) =~= Seq::<Seq<char>>::empty());
    r
}

fn name_rule(name: &'static str, category: Category, note: &'static str) -> (r: Rule)
    ensures
        r@ == by_name(name@, category, note@),
{
    let r = sibling_rule(name, category, Vec::new(), note);
    assert(text::slices(r.sibling_any@) =~= Seq::<Seq<char>>::empty());
    r
}

fn one(a: &'static str) -> (r: Vec<&'static str>)
    ensures
        text::slices(r@) == seq![a@],
{
    let mut v: Vec<&'static str> = Vec::new();
    v.push(a);
    assert(text::slices(v@) =~= seq![a@]);
    v
}

fn two(a: &'static str, b: &'static str) -> (r: Vec<&'static str>)
    ensures
        text::slices(r@) == seq![a@, b@],
{
    let mut v: Vec<&'static str> = Vec::new();
    v.push(a);
    v.push(b);
    assert(text::slices(v@) =~= seq![a@, b@]);
    v
}

fn three(a: &'static str, b: &'static str, c: &'static str) -> (r: Vec<&'static str>)
    ensures
        text::slices(r@) == seq![a@, b@, c@],
{
    let mut v: Vec<&'static str> = Vec::new();
    v.push(a);
    v.push(b);
    v.push(c);
    assert(text::slices(v@) =~= seq![a@, b@, c@]);
    v
}

fn four(a: &'static str, b: &'static str, c: &'static str, d: &'static str) -> (r: Vec<&'static str>)
    ensures
        text::slices(r@) == seq![a@, b@, c@, d@],
{
    let mut v: Vec<&'static str> = Vec::new();
    v.push(a);
    v.push(b);
    v.push(c);
    v.push(d);
    assert(text::slices(v@) =~= seq![a@, b@, c@, d@]);
    v
}

/// JavaScript / TypeScript.
pub open spec fn js_rules() -> Seq<RuleView> {
    seq![
        by_name("node_modules"@, Category::JsTs, "npm/yarn/pnpm packages — reinstall with install"@),
        by_name("bower_components"@, Category::JsTs, "legacy bower packages"@),
        by_sibling(".next"@, Category::JsTs, seq!["package.json"@], "Next.js build output"@),
        by_sibling(".nuxt"@, Category::JsTs, seq!["package.json"@], "Nuxt build output"@),
        by_sibling(".svelte-kit"@, Category::JsTs, seq!["package.json"@], "SvelteKit build output"@),
        by_sibling(".angular"@, Category::JsTs, seq!["angular.json"@, "package.json"@], "Angular cache"@),
        by_sibling(".turbo"@, Category::JsTs, seq!["package.json"@, "turbo.json"@], "Turborepo cache"@),
        by_sibling(".parcel-cache"@, Category::JsTs, seq!["package.json"@], "Parcel cache"@),
        by_sibling(".vite"@, Category::JsTs, seq!["package.json"@], "Vite cache"@),
        by_sibling(".docusaurus"@, Category::JsTs, seq!["package.json"@], "Docusaurus cache"@),
        by_sibling("dist"@, Category::JsTs, seq!["package.json"@], "build output (regenerate with build)"@),
        by_sibling("coverage"@, Category::JsTs, seq!["package.json"@], "test coverage report"@),
        by_sibling(".nyc_output"@, Category::JsTs, seq!["package.json"@], "nyc coverage data"@),
    ]
}

fn js(v: &mut Vec<Rule>)
    ensures
        rules_view(final(v)@) == rules_view(old(v)@) + js_rules(),
{
    let ghost before = rules_view(v@);
    v.push(name_rule("node_modules", Category::JsTs, "npm/yarn/pnpm packages — reinstall with install"));
    v.push(name_rule("bower_components", Category::JsTs, "legacy bower packages"));
    v.push(sibling_rule(".next", Category::JsTs, one("package.json"), "Next.js build output"));
    v.push(sibling_rule(".nuxt", Category::JsTs, one("package.json"), "Nuxt build output"));
    v.push(sibling_rule(".svelte-kit", Category::JsTs, one("package.json"), "SvelteKit build output"));
    v.push(sibling_rule(".angular", Category::JsTs, two("angular.json", "package.json"), "Angular cache"));
    v.push(sibling_rule(".turbo", Category::JsTs, two("package.json", "turbo.json"), "Turborepo cache"));
    v.push(sibling_rule(".parcel-cache", Category::JsTs, one("package.json"), "Parcel cache"));
    v.push(sibling_rule(".vite", Category::JsTs, one("package.json"), "Vite cache"));
    v.push(sibling_rule(".docusaurus", Category::JsTs, one("package.json"), "Docusaurus cache"));
    v.push(sibling_rule("dist", Category::JsTs, one("package.json"), "build output (regenerate with build)"));
    v.push(sibling_rule("coverage", Category::JsTs, one("package.json"), "test coverage report"));
    v.push(sibling_rule(".nyc_output", Category::JsTs, one("package.json"), "nyc coverage data"));
    assert(rules_view(v@) =~= before + js_rules());
}

/// Rust.
pub open spec fn rust_rules() -> Seq<RuleView> {
    seq![
        by_sibling("target"@, Category::Rust, seq!["Cargo.toml"@], "cargo build output (cargo build)"@),
    ]
}

fn rust(v: &mut Vec<Rule>)
    ensures
        rules_view(final(v)@) == rules_view(old(v)@) + rust_rules(),
{
    let ghost before = rules_view(v@);
    v.push(sibling_rule("target", Category::Rust, one("Cargo.toml"), "cargo build output (cargo build)"));
    assert(rules_view(v@) =~= before + rust_rules());
}

/// Python.
pub open spec fn python_rules() -> Seq<RuleView> {
    seq![
        by_name("__pycache__"@, Category::Python, "compiled bytecode"@),
        by_name(".pytest_cache"@, Category::Python, "pytest cache"@),
        by_name(".mypy_cache"@, Category::Python, "mypy type cache"@),
        by_name(".ruff_cache"@, Category::Python, "ruff cache"@),
        by_name(".ipynb_checkpoints"@, Category::Python, "Jupyter checkpoints"@),
        by_name(".venv"@, Category::Python, "virtualenv (python -m venv)"@),
        RuleView {
            name: "venv"@,
            category: Category::Python,
            sibling_any: Seq::empty(),
            sibling_ext: Seq::empty(),
            child_any: seq!["pyvenv.cfg"@],
            note: "virtualenv (python -m venv)"@,
        },
        RuleView {
            name: "env"@,
            category: Category::Python,
            sibling_any: Seq::empty(),
            sibling_ext: Seq::empty(),
            child_any: seq!["pyvenv.cfg"@],
            note: "virtualenv (python -m venv)"@,
        },
        by_sibling(".tox"@, Category::Python, seq!["tox.ini"@, "setup.py"@, "pyproject.toml"@], "tox environments"@),
        by_sibling(".eggs"@, Category::Python, seq!["setup.py"@, "setup.cfg"@], "setuptools eggs"@),
        by_sibling("build"@, Category::Python, seq!["setup.py"@, "pyproject.toml"@], "python build output"@),
    ]
}

fn python(v: &mut Vec<Rule>)
    ensures
        rules_view(final(v)@) == rules_view(old(v)@) + python_rules(),
{
    let ghost before = rules_view(v@);
    v.push(name_rule("__pycache__", Category::Python, "compiled bytecode"));
    v.push(name_rule(".pytest_cache", Category::Python, "pytest cache"));
    v.push(name_rule(".mypy_cache", Category::Python, "mypy type cache"));
    v.push(name_rule(".ruff_cache", Category::Python, "ruff cache"));
    v.push(name_rule(".ipynb_checkpoints", Category::Python, "Jupyter checkpoints"));
    v.push(name_rule(".venv", Category::Python, "virtualenv (python -m venv)"));
    let r = Rule {
        name: "venv",
        category: Category::Python,
        sibling_any: Vec::new(),
        sibling_ext: Vec::new(),
        child_any: one("pyvenv.cfg"),
        note: "virtualenv (python -m venv)",
    };
    assert(text::slices(r.sibling_any@) =~= Seq::<Seq<char>>::empty());
    assert(text::slices(r.sibling_ext@) =~= Seq::<Seq<char>>::empty());
    v.push(r);
    let r = Rule {
        name: "env",
        category: Category::Python,
        sibling_any: Vec::new(),
        sibling_ext: Vec::new(),
        child_any: one("pyvenv.cfg"),
        note: "virtualenv (python -m venv)",
    };
    assert(text::slices(r.sibling_any@) =~= Seq::<Seq<char>>::empty());
    assert(text::slices(r.sibling_ext@) =~= Seq::<Seq<char>>::empty());
    v.push(r);
    v.push(sibling_rule(".tox", Category::Python, three("tox.ini", "setup.py", "pyproject.toml"), "tox environments"));
    v.push(sibling_rule(".eggs", Category::Python, two("setup.py", "setup.cfg"), "setuptools eggs"));
    v.push(sibling_rule("build", Category::Python, two("setup.py", "pyproject.toml"), "python build output"));
    assert(rules_view(v@) =~= before + python_rules());
}

/// JVM.
pub open spec fn jvm_rules() -> Seq<RuleView> {
    seq![
        by_sibling(".gradle"@, Category::Jvm, seq!["build.gradle"@, "build.gradle.kts"@, "settings.gradle"@, "settings.gradle.kts"@], "Gradle cache"@),
        by_sibling("build"@, Category::Jvm, seq!["build.gradle"@, "build.gradle.kts"@, "pom.xml"@], "Gradle/Maven build output"@),
        by_sibling("target"@, Category::Jvm, seq!["pom.xml"@], "Maven build output"@),
    ]
}

fn jvm(v: &mut Vec<Rule>)
    ensures
        rules_view(final(v)@) == rules_view(old(v)@) + jvm_rules(),
{
    let ghost before = rules_view(v@);
    v.push(sibling_rule(".gradle", Category::Jvm, four("build.gradle", "build.gradle.kts", "settings.gradle", "settings.gradle.kts"), "Gradle cache"));
    v.push(sibling_rule("build", Category::Jvm, three("build.gradle", "build.gradle.kts", "pom.xml"), "Gradle/Maven build output"));
    v.push(sibling_rule("target", Category::Jvm, one("pom.xml"), "Maven build output"));
    assert(rules_view(v@) =~= before + jvm_rules());
}

/// Apple / Xcode / Swift.
pub open spec fn apple_rules() -> Seq<RuleView> {
    seq![
        by_name("DerivedData"@, Category::Apple, "Xcode derived data"@),
        by_sibling("Pods"@, Category::Apple, seq!["Podfile"@], "CocoaPods (pod install)"@),
        by_sibling("Carthage"@, Category::Apple, seq!["Cartfile"@], "Carthage build"@),
        by_sibling(".build"@, Category::Apple, seq!["Package.swift"@], "SwiftPM build"@),
    ]
}

fn apple(v: &mut Vec<Rule>)
    ensures
        rules_view(final(v)@) == rules_view(old(v)@) + apple_rules(),
{
    let ghost before = rules_view(v@);
    v.push(name_rule("DerivedData", Category::Apple, "Xcode derived data"));
    v.push(sibling_rule("Pods", Category::Apple, one("Podfile"), "CocoaPods (pod install)"));
    v.push(sibling_rule("Carthage", Category::Apple, one("Cartfile"), "Carthage build"));
    v.push(sibling_rule(".build", Category::Apple, one("Package.swift"), "SwiftPM build"));
    assert(rules_view(v@) =~= before + apple_rules());
}

/// .NET.
pub open spec fn dotnet_rules() -> Seq<RuleView> {
    seq![
        RuleView {
            name: "bin"@,
            category: Category::Dotnet,
            sibling_any: Seq::empty(),
            sibling_ext: seq![".csproj"@, ".fsproj"@, ".vbproj"@, ".sln"@],
            child_any: seq!["Debug"@, "Release"@],
            note: ".NET build output"@,
        },
        RuleView {
            name: "obj"@,
            category: Category::Dotnet,
            sibling_any: Seq::empty(),
            sibling_ext: seq![".csproj"@, ".fsproj"@, ".vbproj"@, ".sln"@],
            child_any: seq!["Debug"@, "Release"@],
            note: ".NET intermediate output"@,
        },
    ]
}

fn dotnet(v: &mut Vec<Rule>)
    ensures
        rules_view(final(v)@) == rules_view(old(v)@) + dotnet_rules(),
{
    let ghost before = rules_view(v@);
    let r = Rule {
        name: "bin",
        category: Category::Dotnet,
        sibling_any: Vec::new(),
        sibling_ext: four(".csproj", ".fsproj", ".vbproj", ".sln"),
        child_any: two("Debug", "Release"),
        note: ".NET build output",
    };
    assert(text::slices(r.sibling_any@) =~= Seq::<Seq<char>>::empty());
    v.push(r);
    let r = Rule {
        name: "obj",
        category: Category::Dotnet,
        sibling_any: Vec::new(),
        sibling_ext: four(".csproj", ".fsproj", ".vbproj", ".sln"),
        child_any: two("Debug", "Release"),
        note: ".NET intermediate output",
    };
    assert(text::slices(r.sibling_any@) =~= Seq::<Seq<char>>::empty());
    v.push(r);
    assert(rules_view(v@) =~= before + dotnet_rules());
}

/// C / C++.
pub open spec fn cpp_rules() -> Seq<RuleView> {
    seq![
        by_sibling("build"@, Category::Cpp, seq!["CMakeLists.txt"@], "CMake build dir"@),
        by_sibling("cmake-build-*"@, Category::Cpp, seq!["CMakeLists.txt"@], "CLion/CMake build dir"@),
    ]
}

fn cpp(v: &mut Vec<Rule>)
    ensures
        rules_view(final(v)@) == rules_view(old(v)@) + cpp_rules(),
{
    let ghost before = rules_view(v@);
    v.push(sibling_rule("build", Category::Cpp, one("CMakeLists.txt"), "CMake build dir"));
    v.push(sibling_rule("cmake-build-*", Category::Cpp, one("CMakeLists.txt"), "CLion/CMake build dir"));
    assert(rules_view(v@) =~= before + cpp_rules());
}

/// Flutter / Dart.
pub open spec fn flutter_rules() -> Seq<RuleView> {
    seq![
        by_sibling(".dart_tool"@, Category::Flutter, seq!["pubspec.yaml"@], "Dart tool cache"@),
        by_sibling("build"@, Category::Flutter, seq!["pubspec.yaml"@], "Flutter build output"@),
    ]
}

fn flutter(v: &mut Vec<Rule>)
    ensures
        rules_view(final(v)@) == rules_view(old(v)@) + flutter_rules(),
{
    let ghost before = rules_view(v@);
    v.push(sibling_rule(".dart_tool", Category::Flutter, one("pubspec.yaml"), "Dart tool cache"));
    v.push(sibling_rule("build", Category::Flutter, one("pubspec.yaml"), "Flutter build output"));
    assert(rules_view(v@) =~= before + flutter_rules());
}

/// Unity.
pub open spec fn unity_rules() -> Seq<RuleView> {
    seq![
        RuleView {
            name: "Library"@,
            category: Category::Unity,
            sibling_any: seq!["ProjectSettings"@],
            sibling_ext: Seq::empty(),
            child_any: seq!["PackageCache"@, "ScriptAssemblies"@, "ArtifactDB"@, "StateCache"@],
            note: "Unity library cache"@,
        },
    ]
}

fn unity(v: &mut Vec<Rule>)
    ensures
        rules_view(final(v)@) == rules_view(old(v)@) + unity_rules(),
{
    let ghost before = rules_view(v@);
    let r = Rule {
        name: "Library",
        category: Category::Unity,
        sibling_any: one("ProjectSettings"),
        sibling_ext: Vec::new(),
        child_any: four("PackageCache", "ScriptAssemblies", "ArtifactDB", "StateCache"),
        note: "Unity library cache",
    };
    assert(text::slices(r.sibling_ext@) =~= Seq::<Seq<char>>::empty());
    v.push(r);
    assert(rules_view(v@) =~= before + unity_rules());
}

/// Terraform.
pub open spec fn terraform_rules() -> Seq<RuleView> {
    seq![
        by_name(".terraform"@, Category::Terraform, "Terraform plugins/modules"@),
    ]
}

fn terraform(v: &mut Vec<Rule>)
    ensures
        rules_view(final(v)@) == rules_view(old(v)@) + terraform_rules(),
{
    let ghost before = rules_view(v@);
    v.push(name_rule(".terraform", Category::Terraform, "Terraform plugins/modules"));
    assert(rules_view(v@) =~= before + terraform_rules());
}

/// Misc.
pub open spec fn misc_rules() -> Seq<RuleView> {
    seq![
        by_sibling(".cache"@, Category::Misc, seq!["package.json"@], "build cache"@),
        by_sibling("dist"@, Category::Python, seq!["setup.py"@, "pyproject.toml"@], "python sdist/wheel output"@),
    ]
}

fn misc(v: &mut Vec<Rule>)
    ensures
        rules_view(final(v)@) == rules_view(old(v)@) + misc_rules(),
{
    let ghost before = rules_view(v@);
    v.push(sibling_rule(".cache", Category::Misc, one("package.json"), "build cache"));
    v.push(sibling_rule("dist", Category::Python, two("setup.py", "pyproject.toml"), "python sdist/wheel output"));
    assert(rules_view(v@) =~= before + misc_rules());
}

/// All rules. The first one that fits a directory counts.
pub open spec fn all_rules() -> Seq<RuleView> {
    js_rules() + rust_rules() + python_rules() + jvm_rules() + apple_rules() + dotnet_rules() + cpp_rules() + flutter_rules() + unity_rules() + terraform_rules() + misc_rules()
}

/// All rules, in order.
pub fn rules() -> (r: Vec<Rule>)
    ensures
        rules_view(r@) == all_rules(),
{
    let mut v: Vec<Rule> = Vec::new();
    assert(rules_view(v@) =~= Seq::<RuleView>::empty());
    js(&mut v);
    rust(&mut v);
    python(&mut v);
    jvm(&mut v);
    apple(&mut v);
    dotnet(&mut v);
    cpp(&mut v);
    flutter(&mut v);
    unity(&mut v);
    terraform(&mut v);
    misc(&mut v);
    assert(rules_view(v@) =~= all_rules());
    v
}

// ---- matching -------------------------------------------------------------------

/// Whether the rule fits the name.
pub open spec fn name_fits(r: RuleView, name: Seq<char>) -> bool {
    if r.name.len() > 0 && r.name.last() == '*' {
        r.name.drop_last().is_prefix_of(name)
    } else {
        name == r.name
    }
}

/// Whether one of `names` is one of `any`, or ends with one of `ext`.
pub open spec fn some_name(names: Seq<Seq<char>>, any: Seq<Seq<char>>, ext: Seq<Seq<char>>) -> bool {
    exists|i: int| 0 <= i < names.len() && #[trigger] name_wanted(names[i], any, ext)
}

/// Whether `name` is one of `any`, or ends with one of `ext`.
pub open spec fn name_wanted(name: Seq<char>, any: Seq<Seq<char>>, ext: Seq<Seq<char>>) -> bool {
    any.contains(name) || exists|k: int|
        0 <= k < ext.len() && (#[trigger] ext[k]).is_suffix_of(name)
}

/// Whether the rule fits the names around the directory: those of its parent's
/// entries (none where it has no parent) and those of its own.
pub open spec fn context_fits(
    r: RuleView,
    siblings: Option<Seq<Seq<char>>>,
    children: Seq<Seq<char>>,
) -> bool {
    &&& (r.sibling_any.len() == 0 && r.sibling_ext.len() == 0) || (siblings matches Some(s)
        && some_name(s, r.sibling_any, r.sibling_ext))
    &&& r.child_any.len() == 0 || some_name(children, r.child_any, Seq::empty())
}

/// Whether the rule fits the directory.
pub open spec fn rule_fits(
    r: RuleView,
    name: Seq<char>,
    siblings: Option<Seq<Seq<char>>>,
    children: Seq<Seq<char>>,
) -> bool {
    name_fits(r, name) && context_fits(r, siblings, children)
}

/// The first of the rules `rs` that fits the directory.
pub open spec fn first_fit(
    rs: Seq<RuleView>,
    name: Seq<char>,
    siblings: Option<Seq<Seq<char>>>,
    children: Seq<Seq<char>>,
) -> Option<RuleView>
    decreases rs.len(),
{
    if rs.len() == 0 {
        None
    } else if rule_fits(rs[0], name, siblings, children) {
        Some(rs[0])
    } else {
        first_fit(rs.skip(1), name, siblings, children)
    }
}

/// The rule by which a directory is a cache, if it is one.
pub open spec fn classified(
    name: Seq<char>,
    siblings: Option<Seq<Seq<char>>>,
    children: Seq<Seq<char>>,
) -> Option<RuleView> {
    first_fit(all_rules(), name, siblings, children)
}

fn name_matches(rule: &Rule, name: &str) -> (r: bool)
    ensures
        r == name_fits(rule@, name@),
{
    let cs = text::chars_of(rule.name);
    let n: usize = cs.len();
    if n > 0 && cs[n - 1] == '*' {
        let prefix = text::string_of(vstd::slice::slice_subrange(cs.as_slice(), 0, n - 1));
        assert(prefix@ =~= rule.name@.drop_last());
        starts_with(name, prefix.as_str())
    } else {
        str_eq(name, rule.name)
    }
}

fn wanted(name: &str, any: &Vec<&'static str>, ext: &Vec<&'static str>) -> (r: bool)
    ensures
        r == name_wanted(name@, text::slices(any@), text::slices(ext@)),
{
    let mut i: usize = 0;
    while i < any.len()
        invariant
            i <= any@.len(),
            forall|k: int| 0 <= k < i ==> (#[trigger] any@[k])@ != name@,
        decreases any@.len() - i,
    {
        if str_eq(name, any[i]) {
            assert(text::slices(any@)[i as int] == name@);
            return true;
        }
        i += 1;
    }
    assert(!text::slices(any@).contains(name@)) by {
        if text::slices(any@).contains(name@) {
            let k = choose|k: int|
                0 <= k < text::slices(any@).len() && text::slices(any@)[k] == name@;
            assert(any@[k]@ == name@);
        }
    }
    let mut i: usize = 0;
    while i < ext.len()
        invariant
            i <= ext@.len(),
            forall|k: int| 0 <= k < i ==> !(#[trigger] text::slices(ext@)[k]).is_suffix_of(name@),
        decreases ext@.len() - i,
    {
        if ends_with(name, ext[i]) {
            assert(text::slices(ext@)[i as int].is_suffix_of(name@));
            return true;
        }
        i += 1;
    }
    false
}

fn any_wanted(names: &Vec<&str>, any: &Vec<&'static str>, ext: &Vec<&'static str>) -> (r: bool)
    ensures
        r == some_name(text::slices(names@), text::slices(any@), text::slices(ext@)),
{
    let mut i: usize = 0;
    while i < names.len()
        invariant
            i <= names@.len(),
            forall|k: int|
                0 <= k < i ==> !#[trigger] name_wanted(
                    text::slices(names@)[k],
                    text::slices(any@),
                    text::slices(ext@),
                ),
        decreases names@.len() - i,
    {
        if wanted(names[i], any, ext) {
            assert(name_wanted(
                text::slices(names@)[i as int],
                text::slices(any@),
                text::slices(ext@),
            ));
            return true;
        }
        i += 1;
    }
    false
}

/// The names of an optional list.
pub open spec fn opt_names(v: Option<&Vec<&str>>) -> Option<Seq<Seq<char>>> {
    match v {
        Some(v) => Some(text::slices(v@)),
        None => None,
    }
}

fn context_ok(rule: &Rule, siblings: Option<&Vec<&str>>, children: &Vec<&str>) -> (r: bool)
    ensures
        r == context_fits(rule@, opt_names(siblings), text::slices(children@)),
{
    let siblings_ok = if rule.sibling_any.len() == 0 && rule.sibling_ext.len() == 0 {
        true
    } else {
        match siblings {
            Some(s) => any_wanted(s, &rule.sibling_any, &rule.sibling_ext),
            None => false,
        }
    };
    if !siblings_ok {
        return false;
    }
    if rule.child_any.len() == 0 {
        return true;
    }
    let none: Vec<&'static str> = Vec::new();
    assert(text::slices(none@) =~= Seq::<Seq<char>>::empty());
    any_wanted(children, &rule.child_any, &none)
}

/// The category and the note of a rule.
pub open spec fn verdict(r: Option<RuleView>) -> Option<(Category, Seq<char>)> {
    match r {
        Some(r) => Some((r.category, r.note)),
        None => None,
    }
}

/// The same with the note as a string.
pub open spec fn found(v: Option<(Category, &'static str)>) -> Option<(Category, Seq<char>)> {
    match v {
        Some((c, n)) => Some((c, n@)),
        None => None,
    }
}

/// The category and the note of the first of `rules` that fits the directory
/// called `name`, among the names of its parent's entries and its own.
pub fn first_match(
    rules: &Vec<Rule>,
    name: &str,
    siblings: Option<&Vec<&str>>,
    children: &Vec<&str>,
) -> (r: Option<(Category, &'static str)>)
    ensures
        found(r) == verdict(
            first_fit(rules_view(rules@), name@, opt_names(siblings), text::slices(children@)),
        ),
{
    let ghost all = rules_view(rules@);
    let ghost sib = opt_names(siblings);
    let ghost kids = text::slices(children@);
    let ghost goal = first_fit(all, name@, sib, kids);
    let mut i: usize = 0;
    assert(all.skip(0) =~= all);
    while i < rules.len()
        invariant
            all == rules_view(rules@),
            sib == opt_names(siblings),
            kids == text::slices(children@),
            i <= rules@.len(),
            goal == first_fit(all, name@, sib, kids),
            goal == first_fit(all.skip(i as int), name@, sib, kids),
        decreases rules@.len() - i,
    {
        let rule = &rules[i];
        assert(all.skip(i as int)[0] == rule@);
        assert(all.skip(i as int).skip(1) =~= all.skip(i + 1));
        if name_matches(rule, name) && context_ok(rule, siblings, children) {
            return Some((rule.category, rule.note));
        }
        i += 1;
    }
    None
}

/// Whether some rule fits the name, whatever is around the directory.
pub open spec fn name_listed(name: Seq<char>) -> bool {
    exists|i: int| 0 <= i < all_rules().len() && name_fits(#[trigger] all_rules()[i], name)
}

/// Whether one of all rules fits the name, whatever is around the directory.
pub fn may_match(rules: &Vec<Rule>, name: &str) -> (r: bool)
    requires
        rules_view(rules@) == all_rules(),
    ensures
        r == name_listed(name@),
{
    let ghost all = rules_view(rules@);
    let mut i: usize = 0;
    while i < rules.len()
        invariant
            all == rules_view(rules@),
            all == all_rules(),
            i <= rules@.len(),
            forall|k: int| 0 <= k < i ==> !name_fits(#[trigger] all[k], name@),
        decreases rules@.len() - i,
    {
        assert(all[i as int] == rules@[i as int]@);
        if name_matches(&rules[i], name) {
            assert(name_fits(all_rules()[i as int], name@));
            return true;
        }
        i += 1;
    }
    false
}

/// A directory whose name no rule fits is no cache.
pub proof fn lemma_unlisted(rs: Seq<RuleView>, name: Seq<char>, s: Option<Seq<Seq<char>>>, c: Seq<Seq<char>>)
    requires
        forall|i: int| 0 <= i < rs.len() ==> !name_fits(#[trigger] rs[i], name),
    ensures
        first_fit(rs, name, s, c) is None,
    decreases rs.len(),
{
    if rs.len() > 0 {
        assert(!name_fits(rs[0], name));
        assert forall|i: int| 0 <= i < rs.skip(1).len() implies !name_fits(
            #[trigger] rs.skip(1)[i],
            name,
        ) by {
            assert(rs.skip(1)[i] == rs[i + 1]);
        }
        lemma_unlisted(rs.skip(1), name, s, c);
    }
}

} // verus!
