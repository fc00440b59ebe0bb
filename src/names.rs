use vstd::prelude::*;
use vstd::string::*;

verus! {

/// The file name that stands for a directory entry of the catalog.
pub const TEMPLATE_FILE_NAME: &'static str = "template.yml";

/// The index of the last `.` of `s`, or -1 when it holds none.
pub open spec fn last_dot(s: Seq<char>) -> int
    decreases s.len(),
{
    if s.len() == 0 {
        -1
    } else if s.last() == '.' {
        s.len() - 1
    } else {
        last_dot(s.drop_last())
    }
}

/// The identifier of an entry with the given file name: the name without its
/// extension. A name that starts with its only `.` is kept whole. The empty
/// name and the names `.` and `..` have none.
pub open spec fn stem_of(name: Seq<char>) -> Option<Seq<char>> {
    if name.len() == 0 || name == seq!['.'] || name == seq!['.', '.'] {
        None
    } else if last_dot(name) <= 0 {
        Some(name)
    } else {
        Some(name.subrange(0, last_dot(name)))
    }
}

proof fn lemma_last_dot_bounds(s: Seq<char>)
    ensures
        -1 <= last_dot(s) < s.len(),
        last_dot(s) >= 0 ==> s[last_dot(s)] == '.',
        forall|j: int| last_dot(s) < j < s.len() ==> s[j] != '.',
    decreases s.len(),
{
    if s.len() > 0 && s.last() != '.' {
        let t = s.drop_last();
        lemma_last_dot_bounds(t);
        assert forall|j: int| last_dot(s) < j < s.len() implies s[j] != '.' by {
            if j < t.len() {
                assert(s[j] == t[j]);
            }
        }
    }
}

/// The index of the last `.` of `s`, if any.
fn find_last_dot(s: &str) -> (r: Option<usize>)
    ensures
        match r {
            Some(i) => i == last_dot(s@),
            None => last_dot(s@) == -1,
        },
{
    let n = s.unicode_len();
    let mut i: usize = n;
    assert(s@.subrange(0, n as int) =~= s@);
    while i > 0
        invariant
            i <= n == s@.len(),
            last_dot(s@) == last_dot(s@.subrange(0, i as int)),
        decreases i,
    {
        let ghost pre = s@.subrange(0, i as int);
        if s.get_char(i - 1) == '.' {
            return Some(i - 1);
        }
        assert(pre.drop_last() =~= s@.subrange(0, i - 1));
        i = i - 1;
    }
    None
}

/// The identifier of a catalog entry, derived from its file name.
pub fn component_name(file_name: &str) -> (r: Option<String>)
    ensures
        match r {
            Some(id) => stem_of(file_name@) == Some(id@),
            None => stem_of(file_name@) is None,
        },
{
    let n = file_name.unicode_len();
    if n == 0 {
        return None;
    }
    if n <= 2 && file_name.get_char(0) == '.' && (n == 1 || file_name.get_char(1) == '.') {
        proof {
            if n == 1 {
                assert(file_name@ =~= seq!['.']);
            } else {
                assert(file_name@ =~= seq!['.', '.']);
            }
        }
        return None;
    }
    proof {
        if file_name@ == seq!['.'] {
            assert(file_name@[0] == '.');
        }
        if file_name@ == seq!['.', '.'] {
            assert(file_name@[0] == '.' && file_name@[1] == '.');
        }
    }
    proof {
        lemma_last_dot_bounds(file_name@);
    }
    match find_last_dot(file_name) {
        Some(i) => {
            if i == 0 {
                Some(String::from_str(file_name))
            } else {
                Some(String::from_str(file_name.substring_char(0, i)))
            }
        },
        None => Some(String::from_str(file_name)),
    }
}

/// The path of the file that holds an entry's documents: the entry itself,
/// or the template file inside it when it is a directory. A separator is put
/// between the two only where the entry does not already end with one.
pub open spec fn source_path_of(entry: Seq<char>, is_dir: bool) -> Seq<char> {
    if !is_dir {
        entry
    } else if entry.len() == 0 || entry.last() == '/' {
        entry + TEMPLATE_FILE_NAME@
    } else {
        entry + seq!['/'] + TEMPLATE_FILE_NAME@
    }
}

/// Resolves a catalog entry to the file to read.
pub fn source_file(entry: &str, is_dir: bool) -> (r: String)
    ensures
        r@ == source_path_of(entry@, is_dir),
{
    let mut path = String::from_str(entry);
    if is_dir {
        let n = entry.unicode_len();
        if n > 0 && entry.get_char(n - 1) != '/' {
            path.append("/");
            proof {
                reveal_strlit("/");
            }
        }
        path.append(TEMPLATE_FILE_NAME);
    }
    path
}

/// `s` with each line break replaced by a space.
pub open spec fn newlines_to_spaces(s: Seq<char>) -> Seq<char> {
    s.map_values(|c: char| if c == '\n' { ' ' } else { c })
}

/// Replaces each line break of `s` by a space, so that a text fits on one
/// line of a table.
pub fn trim_newline(s: &str) -> (r: String)
    ensures
        r@ == newlines_to_spaces(s@),
{
    let n = s.unicode_len();
    let mut out = String::new();
    let mut start: usize = 0;
    let mut i: usize = 0;
    proof {
        reveal_strlit(" ");
    }
    while i < n
        invariant
            n == s@.len(),
            start <= i <= n,
            out@ == newlines_to_spaces(s@.subrange(0, start as int)),
            forall|j: int| start <= j < i ==> s@[j] != '\n',
            " "@ == seq![' '],
        decreases n - i,
    {
        if s.get_char(i) == '\n' {
            let ghost before = out@;
            out.append(s.substring_char(start, i));
            out.append(" ");
            assert(newlines_to_spaces(s@.subrange(0, i + 1)) =~= newlines_to_spaces(
                s@.subrange(0, start as int),
            ) + s@.subrange(start as int, i as int) + seq![' ']);
            start = i + 1;
        }
        i = i + 1;
    }
    out.append(s.substring_char(start, n));
    assert(newlines_to_spaces(s@.subrange(0, n as int)) =~= newlines_to_spaces(
        s@.subrange(0, start as int),
    ) + s@.subrange(start as int, n as int));
    assert(s@.subrange(0, n as int) =~= s@);
    out
}

/// The version string shown in generated documents: `dev` for a debug
/// build, otherwise the package version recorded at build time, or `unknown`
/// when none was recorded.
pub fn get_version(debug: bool, build_version: Option<&'static str>) -> (r: &'static str)
    ensures
        r@ == (if debug {
            "dev"@
        } else {
            match build_version {
                Some(v) => v@,
                None => "unknown"@,
            }
        }),
{
    if debug {
        "dev"
    } else {
        match build_version {
            Some(v) => v,
            None => "unknown",
        }
    }
}

} // verus!
