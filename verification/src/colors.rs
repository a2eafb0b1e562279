//! Chart colours: the card palette and a colour per language (GitHub
//! Linguist's colours where it defines one).
use vstd::prelude::*;
use crate::text::chars_of;
use crate::totals::chars_eq;

verus! {

/// Page background.
pub fn background() -> (r: &'static str)
    ensures
        r@ == "#0d1117"@,
{
    "#0d1117"
}

/// Card fill.
pub fn card() -> (r: &'static str)
    ensures
        r@ == "#161b22"@,
{
    "#161b22"
}

/// Card border.
pub fn card_border() -> (r: &'static str)
    ensures
        r@ == "#30363d"@,
{
    "#30363d"
}

/// Divider line.
pub fn divider() -> (r: &'static str)
    ensures
        r@ == "#21262d"@,
{
    "#21262d"
}

/// Primary text.
pub fn text_primary() -> (r: &'static str)
    ensures
        r@ == "#f0f6fc"@,
{
    "#f0f6fc"
}

/// Muted text.
pub fn text_muted() -> (r: &'static str)
    ensures
        r@ == "#8b949e"@,
{
    "#8b949e"
}

/// Track behind a bar.
pub fn bar_track() -> (r: &'static str)
    ensures
        r@ == "#21262d"@,
{
    "#21262d"
}

/// Colour of a language that has none of its own.
pub open spec fn fallback_color() -> Seq<char> {
    "#6e7681"@
}

/// Language colours (GitHub Linguist, https://github.com/github-linguist/linguist,
/// where defined), as `(name, colour)`.
pub open spec fn language_table() -> Seq<(Seq<char>, Seq<char>)> {
    seq![
        ("AIDL"@, "#34EB6B"@),
        ("ASP.NET"@, "#9400ff"@),
        ("Astro"@, "#ff5a03"@),
        ("Batchfile"@, "#C1F12E"@),
        ("Blade"@, "#f7523f"@),
        ("C"@, "#555555"@),
        ("C#"@, "#178600"@),
        ("C++"@, "#f34b7d"@),
        ("CMake"@, "#DA3434"@),
        ("CSS"@, "#663399"@),
        ("DIGITAL Command Language"@, "#5c6bc0"@),
        ("Dart"@, "#00B4AB"@),
        ("Dockerfile"@, "#384d54"@),
        ("Elixir"@, "#6e4a7e"@),
        ("GLSL"@, "#5686a5"@),
        ("Go"@, "#00ADD8"@),
        ("HLSL"@, "#aace60"@),
        ("HTML"@, "#e34c26"@),
        ("ISPC"@, "#2D68B1"@),
        ("Java"@, "#b07219"@),
        ("JavaScript"@, "#f1e05a"@),
        ("Jinja"@, "#a52a22"@),
        ("Jupyter Notebook"@, "#DA5B0B"@),
        ("Kotlin"@, "#A97BFF"@),
        ("Lua"@, "#000080"@),
        ("Makefile"@, "#427819"@),
        ("MDX"@, "#fcb32c"@),
        ("NASL"@, "#26a69a"@),
        ("Objective-C"@, "#438eff"@),
        ("Objective-C++"@, "#6866fb"@),
        ("Other"@, "#6e7681"@),
        ("PHP"@, "#4F5D95"@),
        ("PLSQL"@, "#dad8d8"@),
        ("PLpgSQL"@, "#336790"@),
        ("Perl"@, "#0298c3"@),
        ("PowerShell"@, "#012456"@),
        ("Python"@, "#3572A5"@),
        ("R"@, "#198CE7"@),
        ("Raku"@, "#0000fb"@),
        ("Rust"@, "#dea584"@),
        ("SCSS"@, "#c6538c"@),
        ("Shell"@, "#89e051"@),
        ("Svelte"@, "#ff3e00"@),
        ("Swift"@, "#F05138"@),
        ("TSQL"@, "#e38c00"@),
        ("TypeScript"@, "#3178c6"@),
        ("Vim Snippet"@, "#199f4b"@),
        ("Vue"@, "#41b883"@),
        ("Xmake"@, "#22a079"@)
    ]
}

/// The colour of the first entry of `t` named `name`.
pub open spec fn table_lookup(t: Seq<(Seq<char>, Seq<char>)>, name: Seq<char>) -> Option<Seq<char>>
    decreases t.len(),
{
    if t.len() == 0 {
        None
    } else if t[0].0 == name {
        Some(t[0].1)
    } else {
        table_lookup(t.drop_first(), name)
    }
}

/// The colour table as executable data.
fn language_colors() -> (r: Vec<(&'static str, &'static str)>)
    ensures
        r@.map_values(|e: (&'static str, &'static str)| (e.0@, e.1@)) == language_table(),
{
    let r = vec![
        ("AIDL", "#34EB6B"),
        ("ASP.NET", "#9400ff"),
        ("Astro", "#ff5a03"),
        ("Batchfile", "#C1F12E"),
        ("Blade", "#f7523f"),
        ("C", "#555555"),
        ("C#", "#178600"),
        ("C++", "#f34b7d"),
        ("CMake", "#DA3434"),
        ("CSS", "#663399"),
        ("DIGITAL Command Language", "#5c6bc0"),
        ("Dart", "#00B4AB"),
        ("Dockerfile", "#384d54"),
        ("Elixir", "#6e4a7e"),
        ("GLSL", "#5686a5"),
        ("Go", "#00ADD8"),
        ("HLSL", "#aace60"),
        ("HTML", "#e34c26"),
        ("ISPC", "#2D68B1"),
        ("Java", "#b07219"),
        ("JavaScript", "#f1e05a"),
        ("Jinja", "#a52a22"),
        ("Jupyter Notebook", "#DA5B0B"),
        ("Kotlin", "#A97BFF"),
        ("Lua", "#000080"),
        ("Makefile", "#427819"),
        ("MDX", "#fcb32c"),
        ("NASL", "#26a69a"),
        ("Objective-C", "#438eff"),
        ("Objective-C++", "#6866fb"),
        ("Other", "#6e7681"),
        ("PHP", "#4F5D95"),
        ("PLSQL", "#dad8d8"),
        ("PLpgSQL", "#336790"),
        ("Perl", "#0298c3"),
        ("PowerShell", "#012456"),
        ("Python", "#3572A5"),
        ("R", "#198CE7"),
        ("Raku", "#0000fb"),
        ("Rust", "#dea584"),
        ("SCSS", "#c6538c"),
        ("Shell", "#89e051"),
        ("Svelte", "#ff3e00"),
        ("Swift", "#F05138"),
        ("TSQL", "#e38c00"),
        ("TypeScript", "#3178c6"),
        ("Vim Snippet", "#199f4b"),
        ("Vue", "#41b883"),
        ("Xmake", "#22a079")
    ];
    assert(r@.map_values(|e: (&'static str, &'static str)| (e.0@, e.1@)) =~= language_table());
    r
}

/// The colour of a language, if the table has one (exact, case-sensitive name).
fn language_hex(name: &str) -> (r: Option<&'static str>)
    ensures
        match r {
            Some(h) => table_lookup(language_table(), name@) == Some(h@),
            None => table_lookup(language_table(), name@) is None,
        },
{
    let table = language_colors();
    let ghost tv = table@.map_values(|e: (&'static str, &'static str)| (e.0@, e.1@));
    let cs = chars_of(name);
    let mut i: usize = 0;
    assert(tv.skip(0) =~= tv);
    while i < table.len()
        invariant
            i <= table@.len(),
            tv == table@.map_values(|e: (&'static str, &'static str)| (e.0@, e.1@)),
            tv == language_table(),
            cs@ == name@,
            table_lookup(tv, name@) == table_lookup(tv.skip(i as int), name@),
        decreases table@.len() - i,
    {
        let lang = chars_of(table[i].0);
        assert(tv.skip(i as int)[0] == tv[i as int]);
        if chars_eq(&lang, &cs) {
            return Some(table[i].1);
        }
        assert(tv.skip(i as int).drop_first() =~= tv.skip(i + 1));
        i = i + 1;
    }
    None
}

/// The colour of a language: its table colour, or the fallback `#6e7681`.
pub fn language_color(name: &str) -> (r: &'static str)
    ensures
        r@ == match table_lookup(language_table(), name@) {
            Some(h) => h,
            None => fallback_color(),
        },
{
    match language_hex(name) {
        Some(h) => h,
        None => "#6e7681",
    }
}

/// A colour comes only from an entry with exactly the name looked up, and from
/// the first such entry; a name that no entry has gets no colour (and so the
/// fallback in `language_color`).
pub proof fn colour_lookup_matches_exact_name(t: Seq<(Seq<char>, Seq<char>)>, name: Seq<char>)
    ensures
        table_lookup(t, name) is None <==> forall|i: int| 0 <= i < t.len() ==> #[trigger] t[i].0 != name,
        forall|c: Seq<char>| table_lookup(t, name) == Some(c) ==> exists|i: int|
            0 <= i < t.len() && #[trigger] t[i].0 == name && t[i].1 == c && forall|j: int| 0 <= j < i ==> #[trigger] t[j].0 != name,
    decreases t.len(),
{
    if t.len() > 0 {
        let rest = t.drop_first();
        colour_lookup_matches_exact_name(rest, name);
        if t[0].0 == name {
            assert(t[0].0 == name);
        } else {
            assert forall|i: int| 0 <= i < rest.len() implies #[trigger] rest[i] == t[i + 1] by {}
            if table_lookup(t, name) is None {
                assert forall|i: int| 0 <= i < t.len() implies #[trigger] t[i].0 != name by {
                    if i > 0 {
                        assert(t[i] == rest[i - 1]);
                    }
                }
            } else {
                let k = choose|k: int| 0 <= k < rest.len() && #[trigger] rest[k].0 == name;
                assert(t[k + 1].0 == name);
            }
            assert forall|c: Seq<char>| table_lookup(t, name) == Some(c) implies exists|i: int|
                0 <= i < t.len() && #[trigger] t[i].0 == name && t[i].1 == c && forall|j: int| 0 <= j < i ==> #[trigger] t[j].0 != name by {
                let k = choose|k: int|
                    0 <= k < rest.len() && #[trigger] rest[k].0 == name && rest[k].1 == c && forall|j: int| 0 <= j < k ==> #[trigger] rest[j].0 != name;
                assert(t[k + 1] == rest[k]);
                assert forall|j: int| 0 <= j < k + 1 implies #[trigger] t[j].0 != name by {
                    if j > 0 {
                        assert(t[j] == rest[j - 1]);
                    }
                }
            }
        }
    }
}

} // verus!
