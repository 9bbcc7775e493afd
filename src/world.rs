//! The game's description files: cultures, religions and factions.

use vstd::prelude::*;
use vstd::string::*;
use crate::text::{
    lemma_skip_space_bounds, second_word, starts_with, str_second_word, str_starts_with,
    str_trimmed, trimmed,
};

verus! {

/// The lines of a text file, as character sequences.
pub open spec fn line_views(lines: Seq<String>) -> Seq<Seq<char>> {
    lines.map_values(|l: String| l@)
}

/// The second words of the lines of `lines` that begin with `kw` and have one.
pub open spec fn keyword_names(lines: Seq<Seq<char>>, kw: Seq<char>) -> Seq<Seq<char>>
    decreases lines.len(),
{
    if lines.len() == 0 {
        Seq::empty()
    } else {
        let rest = keyword_names(lines.drop_last(), kw);
        let l = lines.last();
        if starts_with(l, kw) && second_word(l) is Some {
            rest.push(second_word(l)->0)
        } else {
            rest
        }
    }
}

/// The index of the first line at or after `i` that begins with `kw` (or the number of lines).
pub open spec fn find_line(lines: Seq<Seq<char>>, kw: Seq<char>, i: int) -> int
    decreases lines.len() - i,
{
    if i < 0 || i >= lines.len() {
        lines.len() as int
    } else if starts_with(lines[i], kw) {
        i
    } else {
        find_line(lines, kw, i + 1)
    }
}

/// The trimmed lines of the block that follows the first line beginning with
/// `religions` and its opening line, up to the first line beginning with `}`.
pub open spec fn religion_names(lines: Seq<Seq<char>>) -> Seq<Seq<char>> {
    let s = find_line(lines, "religions"@, 0) + 2;
    if s >= lines.len() {
        Seq::empty()
    } else {
        let e = find_line(lines, "}"@, s);
        lines.subrange(s, e).map_values(|l: Seq<char>| trimmed(l))
    }
}

/// Whether every line that begins with `kw` has a second word.
pub open spec fn keyword_lines_named(lines: Seq<Seq<char>>, kw: Seq<char>) -> bool {
    forall|k: int|
        0 <= k < lines.len() && starts_with(#[trigger] lines[k], kw) ==> second_word(lines[k]) is Some
}

/// Whether some line begins with `religions`, and a later line, past the
/// block's opening line, begins with `}`.
pub open spec fn religion_block_closed(lines: Seq<Seq<char>>) -> bool {
    let s = find_line(lines, "religions"@, 0);
    s < lines.len() && find_line(lines, "}"@, s + 2) < lines.len()
}

proof fn lemma_keyword_names_len(lines: Seq<Seq<char>>, kw: Seq<char>)
    ensures
        keyword_names(lines, kw).len() <= lines.len(),
    decreases lines.len(),
{
    if lines.len() > 0 {
        lemma_keyword_names_len(lines.drop_last(), kw);
    }
}

/// Whether every line of `lines` that begins with `kw` has a second word.
pub fn keyword_lines_have_names(lines: &Vec<String>, kw: &str) -> (r: bool)
    ensures
        r == keyword_lines_named(line_views(lines@), kw@),
{
    let mut i: usize = 0;
    while i < lines.len()
        invariant
            i <= lines@.len(),
            forall|k: int|
                0 <= k < i && starts_with(#[trigger] line_views(lines@)[k], kw@) ==> second_word(
                    line_views(lines@)[k],
                ) is Some,
        decreases lines.len() - i,
    {
        assert(line_views(lines@)[i as int] == lines@[i as int]@);
        if str_starts_with(lines[i].as_str(), kw) && str_second_word(lines[i].as_str()).is_none() {
            return false;
        }
        i = i + 1;
    }
    true
}

/// Whether `lines` hold a religion block closed by a line that begins with `}`.
pub fn has_religion_block(lines: &Vec<String>) -> (r: bool)
    ensures
        r == religion_block_closed(line_views(lines@)),
{
    let ghost ls = line_views(lines@);
    let n = lines.len();
    let mut s: usize = 0;
    while s < n && !str_starts_with(lines[s].as_str(), "religions")
        invariant
            n == lines@.len(),
            ls == line_views(lines@),
            s <= n,
            find_line(ls, "religions"@, s as int) == find_line(ls, "religions"@, 0),
        decreases n - s,
    {
        s = s + 1;
    }
    if s >= n || n - s <= 2 {
        return false;
    }
    let mut i: usize = s + 2;
    while i < n && !str_starts_with(lines[i].as_str(), "}")
        invariant
            n == lines@.len(),
            ls == line_views(lines@),
            s + 2 <= i <= n,
            find_line(ls, "religions"@, 0) == s,
            find_line(ls, "}"@, i as int) == find_line(ls, "}"@, s + 2),
        decreases n - i,
    {
        i = i + 1;
    }
    i < n
}

/// Where the description files are looked for.
pub struct Config {
    pub data_dir: String,
}

impl Config {
    pub fn new() -> (r: Config)
        ensures
            r.data_dir@ == "../../../../tools/unpacker/data"@,
    {
        Config { data_dir: String::from_str("../../../../tools/unpacker/data") }
    }
}

/// The second words of the lines that begin with `kw`, in order.
fn collect_keyword_names(lines: &Vec<String>, kw: &str) -> (r: Vec<String>)
    ensures
        r@.map_values(|s: String| s@) == keyword_names(line_views(lines@), kw@),
{
    let mut r: Vec<String> = Vec::new();
    let mut i: usize = 0;
    while i < lines.len()
        invariant
            i <= lines@.len(),
            r@.map_values(|s: String| s@) == keyword_names(line_views(lines@.subrange(0, i as int)), kw@),
        decreases lines.len() - i,
    {
        let l = &lines[i];
        proof {
            assert(line_views(lines@.subrange(0, i + 1)).drop_last() =~= line_views(lines@.subrange(0, i as int)));
            assert(line_views(lines@.subrange(0, i + 1)).last() == l@);
        }
        if str_starts_with(l.as_str(), kw) {
            match str_second_word(l.as_str()) {
                Some(w) => {
                    r.push(w);
                    assert(r@.map_values(|s: String| s@) =~= keyword_names(line_views(lines@.subrange(0, i as int)), kw@).push(second_word(l@)->0));
                },
                None => {},
            }
        }
        i = i + 1;
    }
    assert(lines@.subrange(0, lines@.len() as int) =~= lines@);
    r
}

/// A culture, numbered in order of appearance.
#[derive(Debug)]
pub struct Culture {
    pub id: u32,
    pub name: String,
}

/// A religion, numbered in order of appearance.
#[derive(Debug)]
pub struct Religion {
    pub id: u32,
    pub name: String,
}

/// A faction, numbered in order of appearance.
#[derive(Debug)]
pub struct Faction {
    pub id: u32,
    pub name: String,
}

impl Culture {
    /// One culture for each line that begins with `culture` and names one
    /// in its second word.
    pub fn load_all(lines: &Vec<String>) -> (r: Vec<Culture>)
        requires
            lines@.len() <= u32::MAX,
            keyword_lines_named(line_views(lines@), "culture"@),
        ensures
            r@.len() == keyword_names(line_views(lines@), "culture"@).len(),
            forall|k: int|
                #![trigger r@[k]]
                0 <= k < r@.len() ==> r@[k].id == k && r@[k].name@ == keyword_names(
                    line_views(lines@),
                    "culture"@,
                )[k],
    {
        let names = collect_keyword_names(lines, "culture");
        proof {
            lemma_keyword_names_len(line_views(lines@), "culture"@);
            assert(names@.len() == keyword_names(line_views(lines@), "culture"@).len()) by {
                assert(names@.map_values(|s: String| s@).len() == names@.len());
            }
        }
        let mut r: Vec<Culture> = Vec::new();
        let mut i: usize = 0;
        while i < names.len()
            invariant
                i <= names@.len() <= u32::MAX,
                names@.map_values(|s: String| s@) == keyword_names(line_views(lines@), "culture"@),
                r@.len() == i,
                forall|k: int| 0 <= k < i ==> r@[k].id == k && r@[k].name@ == names@[k]@,
            decreases names.len() - i,
        {
            r.push(Culture { id: i as u32, name: names[i].clone() });
            i = i + 1;
        }
        proof {
            assert forall|k: int| 0 <= k < r@.len() implies r@[k].name@ == keyword_names(line_views(lines@), "culture"@)[k] by {
                assert(names@.map_values(|s: String| s@)[k] == names@[k]@);
            }
        }
        r
    }
}

impl Religion {
    /// One religion for each line of the block that follows the first line
    /// beginning with `religions` and the block's opening line, up to the
    /// first line that begins with `}`; without surrounding whitespace.
    pub fn load_all(lines: &Vec<String>) -> (r: Vec<Religion>)
        requires
            lines@.len() <= u32::MAX,
            religion_block_closed(line_views(lines@)),
        ensures
            r@.len() == religion_names(line_views(lines@)).len(),
            forall|k: int|
                #![trigger r@[k]]
                0 <= k < r@.len() ==> r@[k].id == k && r@[k].name@ == religion_names(
                    line_views(lines@),
                )[k],
    {
        let ghost ls = line_views(lines@);
        let n = lines.len();
        let mut s: usize = 0;
        while s < n && !str_starts_with(lines[s].as_str(), "religions")
            invariant
                n == lines@.len(),
                ls == line_views(lines@),
                s <= n,
                find_line(ls, "religions"@, s as int) == find_line(ls, "religions"@, 0),
            decreases n - s,
        {
            s = s + 1;
        }
        let mut r: Vec<Religion> = Vec::new();
        if s >= n || n - s <= 2 {
            return r;
        }
        let mut i: usize = s + 2;
        while i < n && !str_starts_with(lines[i].as_str(), "}")
            invariant
                n == lines@.len() <= u32::MAX,
                ls == line_views(lines@),
                s + 2 <= i <= n,
                find_line(ls, "religions"@, 0) == s,
                find_line(ls, "}"@, i as int) == find_line(ls, "}"@, s + 2),
                r@.len() == i - (s + 2),
                forall|k: int|
                    0 <= k < r@.len() ==> r@[k].id == k && r@[k].name@ == trimmed(ls[s + 2 + k]),
            decreases n - i,
        {
            let name = str_trimmed(lines[i].as_str());
            r.push(Religion { id: (i - (s + 2)) as u32, name });
            i = i + 1;
        }
        proof {
            let e = find_line(ls, "}"@, s + 2);
            assert(e == i);
            assert forall|k: int| 0 <= k < r@.len() implies r@[k].name@ == religion_names(ls)[k] by {
                assert(ls.subrange(s + 2, e)[k] == ls[s + 2 + k]);
            }
        }
        r
    }
}

/// What the three description files hold.
#[derive(Debug)]
pub struct World {
    pub cultures: Vec<Culture>,
    pub religions: Vec<Religion>,
    pub factions: Vec<Faction>,
}

impl World {
    /// Reads the cultures, religions and factions from the lines of their files.
    pub fn load(
        culture_lines: &Vec<String>,
        religion_lines: &Vec<String>,
        faction_lines: &Vec<String>,
    ) -> (r: World)
        requires
            culture_lines@.len() <= u32::MAX,
            religion_lines@.len() <= u32::MAX,
            faction_lines@.len() <= u32::MAX,
            keyword_lines_named(line_views(culture_lines@), "culture"@),
            religion_block_closed(line_views(religion_lines@)),
            keyword_lines_named(line_views(faction_lines@), "faction"@),
        ensures
            r.cultures@.len() == keyword_names(line_views(culture_lines@), "culture"@).len(),
            forall|k: int|
                #![trigger r.cultures@[k]]
                0 <= k < r.cultures@.len() ==> r.cultures@[k].id == k && r.cultures@[k].name@
                    == keyword_names(line_views(culture_lines@), "culture"@)[k],
            r.religions@.len() == religion_names(line_views(religion_lines@)).len(),
            forall|k: int|
                #![trigger r.religions@[k]]
                0 <= k < r.religions@.len() ==> r.religions@[k].id == k && r.religions@[k].name@
                    == religion_names(line_views(religion_lines@))[k],
            r.factions@.len() == keyword_names(line_views(faction_lines@), "faction"@).len(),
            forall|k: int|
                #![trigger r.factions@[k]]
                0 <= k < r.factions@.len() ==> r.factions@[k].id == k && r.factions@[k].name@
                    == keyword_names(line_views(faction_lines@), "faction"@)[k],
    {
        let cultures = Culture::load_all(culture_lines);
        let religions = Religion::load_all(religion_lines);
        let factions = Faction::load_all(faction_lines);
        World { cultures, religions, factions }
    }
}

impl Faction {
    /// One faction for each line that begins with `faction` and names one
    /// in its second word.
    pub fn load_all(lines: &Vec<String>) -> (r: Vec<Faction>)
        requires
            lines@.len() <= u32::MAX,
            keyword_lines_named(line_views(lines@), "faction"@),
        ensures
            r@.len() == keyword_names(line_views(lines@), "faction"@).len(),
            forall|k: int|
                #![trigger r@[k]]
                0 <= k < r@.len() ==> r@[k].id == k && r@[k].name@ == keyword_names(
                    line_views(lines@),
                    "faction"@,
                )[k],
    {
        let names = collect_keyword_names(lines, "faction");
        proof {
            lemma_keyword_names_len(line_views(lines@), "faction"@);
            assert(names@.len() == keyword_names(line_views(lines@), "faction"@).len()) by {
                assert(names@.map_values(|s: String| s@).len() == names@.len());
            }
        }
        let mut r: Vec<Faction> = Vec::new();
        let mut i: usize = 0;
        while i < names.len()
            invariant
                i <= names@.len() <= u32::MAX,
                names@.map_values(|s: String| s@) == keyword_names(line_views(lines@), "faction"@),
                r@.len() == i,
                forall|k: int| 0 <= k < i ==> r@[k].id == k && r@[k].name@ == names@[k]@,
            decreases names.len() - i,
        {
            r.push(Faction { id: i as u32, name: names[i].clone() });
            i = i + 1;
        }
        proof {
            assert forall|k: int| 0 <= k < r@.len() implies r@[k].name@ == keyword_names(line_views(lines@), "faction"@)[k] by {
                assert(names@.map_values(|s: String| s@)[k] == names@[k]@);
            }
        }
        r
    }
}

} // verus!
