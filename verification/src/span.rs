//! The normalized representation every adapter emits, and the shared
//! `Category` vocabulary that makes one timeline actually one.
use crate::text::str_eq;
use crate::text_map::TextMap;
use vstd::prelude::*;

verus! {

/// The shared semantic vocabulary of build steps.
///
/// Every adapter maps its tool's native steps onto these terms; `Other` is the
/// explicit escape hatch for the genuinely tool-specific (still visible,
/// never folded into a reserved term).
#[derive(Debug, Clone, Eq)]
pub enum Category {
    Compile,
    Link,
    Configure,
    Resolve,
    Download,
    Test,
    Other(String),
}

/// The flat name of a category: the reserved terms in lower case, and the
/// tool's own text for `Other`.
pub open spec fn category_name(c: Category) -> Seq<char> {
    match c {
        Category::Compile => "compile"@,
        Category::Link => "link"@,
        Category::Configure => "configure"@,
        Category::Resolve => "resolve"@,
        Category::Download => "download"@,
        Category::Test => "test"@,
        Category::Other(s) => s@,
    }
}

/// `name` is one of the reserved terms' names.
pub open spec fn is_reserved_name(name: Seq<char>) -> bool {
    ||| name == "compile"@
    ||| name == "link"@
    ||| name == "configure"@
    ||| name == "resolve"@
    ||| name == "download"@
    ||| name == "test"@
}

/// `c` is the category that the flat name `name` denotes: the reserved term
/// with that name, or else `Other` holding `name` itself.
pub open spec fn denotes(name: Seq<char>, c: Category) -> bool {
    if name == "compile"@ {
        c is Compile
    } else if name == "link"@ {
        c is Link
    } else if name == "configure"@ {
        c is Configure
    } else if name == "resolve"@ {
        c is Resolve
    } else if name == "download"@ {
        c is Download
    } else if name == "test"@ {
        c is Test
    } else {
        c matches Category::Other(s) && s@ == name
    }
}

/// Two categories are the same term (`Other`s compare by their text).
pub open spec fn same_category(a: Category, b: Category) -> bool {
    match (a, b) {
        (Category::Compile, Category::Compile) => true,
        (Category::Link, Category::Link) => true,
        (Category::Configure, Category::Configure) => true,
        (Category::Resolve, Category::Resolve) => true,
        (Category::Download, Category::Download) => true,
        (Category::Test, Category::Test) => true,
        (Category::Other(x), Category::Other(y)) => x@ == y@,
        _ => false,
    }
}

impl Category {
    /// The category's flat name, as it appears in the trace's `cat` field.
    pub fn as_str(&self) -> (r: &str)
        ensures
            r@ == category_name(*self),
    {
        proof {
            reveal_strlit("compile");
            reveal_strlit("link");
            reveal_strlit("configure");
            reveal_strlit("resolve");
            reveal_strlit("download");
            reveal_strlit("test");
        }
        match self {
            Category::Compile => "compile",
            Category::Link => "link",
            Category::Configure => "configure",
            Category::Resolve => "resolve",
            Category::Download => "download",
            Category::Test => "test",
            Category::Other(s) => s.as_str(),
        }
    }

    /// The category a flat name denotes. Reserved names normalize to their
    /// term, so a name always maps back to itself through `as_str`.
    pub fn from_name(s: &str) -> (c: Category)
        ensures
            denotes(s@, c),
    {
        proof {
            reveal_strlit("compile");
            reveal_strlit("link");
            reveal_strlit("configure");
            reveal_strlit("resolve");
            reveal_strlit("download");
            reveal_strlit("test");
        }
        if str_eq(s, "compile") {
            Category::Compile
        } else if str_eq(s, "link") {
            Category::Link
        } else if str_eq(s, "configure") {
            Category::Configure
        } else if str_eq(s, "resolve") {
            Category::Resolve
        } else if str_eq(s, "download") {
            Category::Download
        } else if str_eq(s, "test") {
            Category::Test
        } else {
            Category::Other(s.to_owned())
        }
    }

    /// Whether two categories are the same term.
    pub fn same_as(&self, other: &Category) -> (r: bool)
        ensures
            r == same_category(*self, *other),
    {
        match (self, other) {
            (Category::Compile, Category::Compile) => true,
            (Category::Link, Category::Link) => true,
            (Category::Configure, Category::Configure) => true,
            (Category::Resolve, Category::Resolve) => true,
            (Category::Download, Category::Download) => true,
            (Category::Test, Category::Test) => true,
            (Category::Other(x), Category::Other(y)) => str_eq(x.as_str(), y.as_str()),
            _ => false,
        }
    }
}

/// The reserved names are six different texts.
proof fn lemma_reserved_names_distinct()
    ensures
        "compile"@ != "link"@,
        "compile"@ != "configure"@,
        "compile"@ != "resolve"@,
        "compile"@ != "download"@,
        "compile"@ != "test"@,
        "link"@ != "configure"@,
        "link"@ != "resolve"@,
        "link"@ != "download"@,
        "link"@ != "test"@,
        "configure"@ != "resolve"@,
        "configure"@ != "download"@,
        "configure"@ != "test"@,
        "resolve"@ != "download"@,
        "resolve"@ != "test"@,
        "download"@ != "test"@,
{
    reveal_strlit("compile");
    reveal_strlit("link");
    reveal_strlit("configure");
    reveal_strlit("resolve");
    reveal_strlit("download");
    reveal_strlit("test");
    assert("compile"@.len() == 7);
    assert("link"@.len() == 4);
    assert("configure"@.len() == 9);
    assert("resolve"@.len() == 7);
    assert("download"@.len() == 8);
    assert("test"@.len() == 4);
    assert("compile"@[0] != "resolve"@[0]);
    assert("link"@[0] != "test"@[0]);
}

/// Two categories are equal exactly when they are the same kind of term
/// (both `Other` or both reserved) with the same flat name: two reserved
/// terms are equal only if they are the same term, and two `Other`s only if
/// their texts are equal.
pub proof fn lemma_same_category_by_name(a: Category, b: Category)
    ensures
        same_category(a, b) <==> ((a is Other) == (b is Other) && category_name(a)
            == category_name(b)),
{
    lemma_reserved_names_distinct();
}

impl<'a> From<&'a str> for Category {
    /// The category a flat name denotes, as `Category::from_name` gives it.
    fn from(s: &'a str) -> (c: Category)
        ensures
            denotes(s@, c),
    {
        Category::from_name(s)
    }
}

impl<'a> vstd::std_specs::convert::FromSpecImpl<&'a str> for Category {
    /// `from` is described by its own `ensures` (`denotes`) instead: for a name
    /// outside the vocabulary it builds an `Other` holding a fresh `String`, and
    /// a spec function can name that text but not that `String`.
    open spec fn obeys_from_spec() -> bool {
        false
    }

    open spec fn from_spec(v: &'a str) -> Category {
        choose|c: Category| denotes(v@, c)
    }
}

impl PartialEq for Category {
    fn eq(&self, other: &Category) -> (r: bool) {
        self.same_as(other)
    }
}

impl vstd::std_specs::cmp::PartialEqSpecImpl for Category {
    open spec fn obeys_eq_spec() -> bool {
        true
    }

    open spec fn eq_spec(&self, other: &Category) -> bool {
        same_category(*self, *other)
    }
}

/// A flat name maps back to itself: `as_str(from_name(s)) == s` for every `s`.
pub proof fn lemma_name_roundtrip(name: Seq<char>, c: Category)
    requires
        denotes(name, c),
    ensures
        category_name(c) == name,
{
    reveal_strlit("compile");
    reveal_strlit("link");
    reveal_strlit("configure");
    reveal_strlit("resolve");
    reveal_strlit("download");
    reveal_strlit("test");
}

/// Reserved terms survive a trip through their name, and an `Other` whose
/// text is a reserved name normalizes to that reserved term
/// (`Other("compile")` comes back as `Compile`); any other `Other` comes back
/// with the same text.
pub proof fn lemma_category_roundtrip(c: Category, back: Category)
    requires
        denotes(category_name(c), back),
    ensures
        is_reserved_name(category_name(c)) ==> category_name(back) == category_name(c)
            && !(back is Other),
        !is_reserved_name(category_name(c)) ==> same_category(back, c),
        !(c is Other) ==> same_category(back, c),
{
    lemma_reserved_names_distinct();
    reveal_strlit("compile");
    reveal_strlit("link");
    reveal_strlit("configure");
    reveal_strlit("resolve");
    reveal_strlit("download");
    reveal_strlit("test");
}

/// The outcome of a step. `Incomplete` is the started-never-finished span of
/// a killed or hung build.
#[derive(Debug, Clone, Copy, PartialEq, Eq, Structural)]
pub enum Status {
    Success,
    Failed,
    Skipped,
    Incomplete,
}

/// The lower-case name of a status.
pub open spec fn status_name(s: Status) -> Seq<char> {
    match s {
        Status::Success => "success"@,
        Status::Failed => "failed"@,
        Status::Skipped => "skipped"@,
        Status::Incomplete => "incomplete"@,
    }
}

impl Status {
    /// The status's lower-case name.
    pub fn as_str(&self) -> (r: &'static str)
        ensures
            r@ == status_name(*self),
    {
        proof {
            reveal_strlit("success");
            reveal_strlit("failed");
            reveal_strlit("skipped");
            reveal_strlit("incomplete");
        }
        match self {
            Status::Success => "success",
            Status::Failed => "failed",
            Status::Skipped => "skipped",
            Status::Incomplete => "incomplete",
        }
    }
}

impl Default for Status {
    fn default() -> (s: Status)
        ensures
            s == Status::Success,
    {
        Status::Success
    }
}

/// One unit of work on the build timeline.
///
/// `start_us` is relative to the span's reference zero: for adapter output
/// that zero is the tool's own start; after `Session::place` it is the
/// session's wall-clock axis.
#[derive(Debug, Clone)]
pub struct Span {
    /// The unit only, e.g. `obj/parser.o`; `track` carries the tool.
    pub name: String,
    /// Shared kind.
    pub category: Category,
    /// Outcome.
    pub status: Status,
    /// Logical tool lane, e.g. `ninja`; becomes the trace's pid.
    pub track: String,
    /// Sub-lane within a track for parallel work; becomes the trace's tid.
    pub lane: u32,
    /// Microseconds from the reference zero.
    pub start_us: i64,
    /// Duration in microseconds.
    pub dur_us: i64,
    /// Key/value detail for drill-down.
    pub args: TextMap<String>,
}

} // verus!
