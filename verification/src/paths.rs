//! File names: what kind of file a path names, and which names a new file may
//! have. Paths are texts whose components a slash separates.

use crate::text::{from_chars, same_chars, to_chars, trim, trim_bounds};
use vstd::prelude::*;

verus! {

/// Where the last component of a path starts.
pub open spec fn last_start(path: Seq<char>) -> int
    decreases path.len(),
{
    if path.len() == 0 {
        0
    } else if path.last() == '/' {
        path.len() as int
    } else {
        last_start(path.drop_last())
    }
}

/// A component that names nothing.
pub open spec fn void(component: Seq<char>) -> bool {
    component.len() == 0 || component == seq!['.']
}

pub proof fn lemma_last_start(path: Seq<char>)
    ensures
        0 <= last_start(path) <= path.len(),
        last_start(path) > 0 ==> path[last_start(path) - 1] == '/',
        forall|i: int| last_start(path) <= i < path.len() ==> #[trigger] path[i] != '/',
    decreases path.len(),
{
    if path.len() > 0 && path.last() != '/' {
        let t = path.drop_last();
        lemma_last_start(t);
        assert forall|i: int| last_start(path) <= i < path.len() implies #[trigger] path[i]
            != '/' by {
            if i < t.len() {
                assert(path[i] == t[i]);
            }
        }
    }
}

/// A path without trailing components that name nothing.
pub open spec fn stripped(path: Seq<char>) -> Seq<char>
    decreases path.len(),
{
    let start = last_start(path);
    if 0 < start <= path.len() && void(path.skip(start)) {
        stripped(path.take(start - 1))
    } else {
        path
    }
}

/// The name of the file that a path leads to. A path that ends in the current
/// or the parent directory leads to no named file.
pub open spec fn file_name(path: Seq<char>) -> Option<Seq<char>> {
    let core = stripped(path);
    let name = core.skip(last_start(core));
    if void(name) || name == seq!['.', '.'] {
        None
    } else {
        Some(name)
    }
}

/// The index of the last dot, or -1.
pub open spec fn last_dot(name: Seq<char>) -> int
    decreases name.len(),
{
    if name.len() == 0 {
        -1
    } else if name.last() == '.' {
        name.len() - 1
    } else {
        last_dot(name.drop_last())
    }
}

/// What follows the last dot of the file name; a dot at its start does not
/// count.
pub open spec fn extension(path: Seq<char>) -> Option<Seq<char>> {
    match file_name(path) {
        Some(name) => if last_dot(name) > 0 {
            Some(name.skip(last_dot(name) + 1))
        } else {
            None
        },
        None => None,
    }
}

/// A letter in lower case, in ASCII.
pub open spec fn lower(c: char) -> char {
    if 'A' <= c <= 'Z' {
        ((c as u32) + 32) as char
    } else {
        c
    }
}

/// A text in lower case, in ASCII.
pub open spec fn lowered(s: Seq<char>) -> Seq<char> {
    Seq::new(s.len(), |i: int| lower(s[i]))
}

/// The extensions of Markdown files.
pub open spec fn markdown_extension(ext: Seq<char>) -> bool {
    lowered(ext) == "md"@ || lowered(ext) == "markdown"@
}

/// The extensions of plain text files.
pub open spec fn text_extension(ext: Seq<char>) -> bool {
    lowered(ext) == "txt"@ || lowered(ext) == "text"@
}

/// A path of a Markdown file.
pub open spec fn markdown_path(path: Seq<char>) -> bool {
    match extension(path) {
        Some(ext) => markdown_extension(ext),
        None => false,
    }
}

/// A path of a plain text file.
pub open spec fn text_path(path: Seq<char>) -> bool {
    match extension(path) {
        Some(ext) => text_extension(ext),
        None => false,
    }
}

fn to_lower(c: char) -> (l: char)
    ensures
        l == lower(c),
{
    if 'A' <= c && c <= 'Z' {
        let code: u8 = c as u8;
        (code + 32) as char
    } else {
        c
    }
}

/// Where the last component of `chars[0..end]` starts.
fn find_last_start(chars: &Vec<char>, end: usize) -> (start: usize)
    requires
        end <= chars@.len(),
    ensures
        start <= end,
        start == last_start(chars@.take(end as int)),
{
    let mut at: usize = end;
    while at > 0 && chars[at - 1] != '/'
        invariant
            at <= end <= chars@.len(),
            last_start(chars@.take(at as int)) == last_start(chars@.take(end as int)),
        decreases at,
    {
        proof {
            assert(chars@.take(at as int).drop_last() == chars@.take(at - 1));
        }
        at = at - 1;
    }
    at
}

fn is_void(chars: &Vec<char>, from: usize, to: usize) -> (b: bool)
    requires
        from <= to <= chars@.len(),
    ensures
        b == void(chars@.subrange(from as int, to as int)),
{
    let ghost part = chars@.subrange(from as int, to as int);
    let dot = to - from == 1 && chars[from] == '.';
    proof {
        assert(seq!['.'].len() == 1 && seq!['.'][0] == '.');
        if to - from == 1 {
            assert(part[0] == chars@[from as int]);
        }
        if dot {
            assert(part =~= seq!['.']);
        }
    }
    from == to || dot
}

/// Where the path `chars` ends without trailing components that name nothing,
/// and where its last component starts.
fn strip(chars: &Vec<char>) -> (bounds: (usize, usize))
    ensures
        bounds.0 <= bounds.1 <= chars@.len(),
        stripped(chars@) == chars@.take(bounds.1 as int),
        bounds.0 == last_start(chars@.take(bounds.1 as int)),
{
    let mut end: usize = chars.len();
    proof {
        assert(chars@.take(end as int) == chars@);
    }
    loop
        invariant
            end <= chars@.len(),
            stripped(chars@) == stripped(chars@.take(end as int)),
        decreases end,
    {
        let start: usize = find_last_start(chars, end);
        proof {
            assert(chars@.take(end as int).skip(start as int) == chars@.subrange(
                start as int,
                end as int,
            ));
        }
        if start > 0 && is_void(chars, start, end) {
            proof {
                assert(chars@.take(end as int).take(start - 1) == chars@.take(start - 1));
            }
            end = start - 1;
        } else {
            return (start, end);
        }
    }
}

fn is_parent(chars: &Vec<char>, from: usize, to: usize) -> (b: bool)
    requires
        from <= to <= chars@.len(),
    ensures
        b == (chars@.subrange(from as int, to as int) == seq!['.', '.']),
{
    let ghost part = chars@.subrange(from as int, to as int);
    let dots = to - from == 2 && chars[from] == '.' && chars[from + 1] == '.';
    proof {
        let up = seq!['.', '.'];
        assert(up.len() == 2 && up[0] == '.' && up[1] == '.');
        if to - from == 2 {
            assert(part[0] == chars@[from as int]);
            assert(part[1] == chars@[from + 1]);
        }
        if dots {
            assert(part =~= up);
        }
    }
    dots
}

/// The extension of a path.
pub fn path_extension(path: &str) -> (ext: Option<String>)
    ensures
        match ext {
            Some(e) => extension(path@) == Some(e@),
            None => extension(path@) is None,
        },
{
    let chars = to_chars(path);
    extension_of(&chars)
}

fn extension_of(chars: &Vec<char>) -> (ext: Option<String>)
    ensures
        match ext {
            Some(e) => extension(chars@) == Some(e@),
            None => extension(chars@) is None,
        },
{
    let (start, end) = strip(chars);
    let ghost name = chars@.subrange(start as int, end as int);
    proof {
        assert(chars@.take(end as int).skip(start as int) == name);
    }
    if is_void(chars, start, end) || is_parent(chars, start, end) {
        return None;
    }
    let mut at: usize = end;
    proof {
        assert(name.take(end - start) == name);
    }
    while at > start && chars[at - 1] != '.'
        invariant
            start <= at <= end <= chars@.len(),
            name == chars@.subrange(start as int, end as int),
            last_dot(name.take(at - start)) == last_dot(name),
        decreases at,
    {
        proof {
            assert(name.take(at - start).drop_last() == name.take(at - start - 1));
        }
        at = at - 1;
    }
    if at > start + 1 {
        proof {
            assert(last_dot(name) == at - start - 1);
            assert(name.skip(at - start) == chars@.subrange(at as int, end as int));
        }
        Some(from_chars(chars, at, end))
    } else {
        None
    }
}

/// Whether `ext` in lower case is `word`.
fn is_lowered(ext: &str, word: &str) -> (b: bool)
    ensures
        b == (lowered(ext@) == word@),
{
    let chars = to_chars(ext);
    let mut low: Vec<char> = Vec::new();
    let mut i: usize = 0;
    while i < chars.len()
        invariant
            i <= chars@.len(),
            low@ == lowered(chars@).take(i as int),
        decreases chars@.len() - i,
    {
        low.push(to_lower(chars[i]));
        proof {
            assert(lowered(chars@).take(i + 1) =~= lowered(chars@).take(i as int).push(
                lower(chars@[i as int]),
            ));
        }
        i = i + 1;
    }
    proof {
        assert(lowered(chars@).take(i as int) =~= lowered(chars@));
    }
    same_chars(&low, &to_chars(word))
}

/// Whether a path names a Markdown file.
pub fn is_markdown_path(path: &str) -> (b: bool)
    ensures
        b == markdown_path(path@),
{
    match path_extension(path) {
        Some(ext) => is_lowered(ext.as_str(), "md") || is_lowered(ext.as_str(), "markdown"),
        None => false,
    }
}

/// Whether a file name is that of a Markdown file.
pub fn is_markdown_name(name: &str) -> (b: bool)
    ensures
        b == markdown_path(name@),
{
    is_markdown_path(name)
}

/// Whether a file name is that of a plain text file.
pub fn is_plain_text_name(name: &str) -> (b: bool)
    ensures
        b == text_path(name@),
{
    match path_extension(name) {
        Some(ext) => is_lowered(ext.as_str(), "txt") || is_lowered(ext.as_str(), "text"),
        None => false,
    }
}

/// A name for a file in the current folder: it leads into no other folder, and
/// is neither the current nor the parent directory.
pub open spec fn plain_name(name: Seq<char>) -> bool {
    !name.contains('/') && !void(name) && name != seq!['.', '.']
}

/// What is answered to a name that is not in the current folder.
pub const NOT_A_PLAIN_NAME: &'static str = "Use a filename in the current folder";

/// The file name that a typed text stands for, if it is accepted: nothing for
/// nothing, else a name in the current folder, as Markdown where it has no
/// extension.
pub open spec fn accepted_name(typed: Seq<char>) -> Option<Seq<char>> {
    let name = trim(typed);
    if name.len() == 0 {
        Some(name)
    } else if !plain_name(name) {
        None
    } else if extension(name) is Some {
        Some(name)
    } else {
        Some(name + seq!['.', 'm', 'd'])
    }
}

/// The file name that a typed text stands for, or what is answered to it.
pub fn markdown_filename(raw: &str) -> (name: Result<String, String>)
    ensures
        match name {
            Ok(n) => accepted_name(raw@) == Some(n@),
            Err(message) => accepted_name(raw@) is None && message@ == NOT_A_PLAIN_NAME@,
        },
{
    let all = to_chars(raw);
    proof {
        assert(all@.subrange(0, all@.len() as int) == all@);
    }
    let (from, to) = trim_bounds(&all, 0, all.len());
    let mut name = from_chars(&all, from, to);
    let chars = to_chars(name.as_str());
    if chars.len() == 0 {
        return Ok(name);
    }
    let end: usize = chars.len();
    let start: usize = find_last_start(&chars, end);
    proof {
        assert(chars@.take(end as int) == chars@);
        assert(chars@.subrange(0, end as int) == chars@);
        lemma_last_start(chars@);
    }
    if start > 0 || is_void(&chars, 0, end) || is_parent(&chars, 0, end) {
        proof {
            assert(start > 0 ==> chars@.contains(chars@[start - 1]));
        }
        return Err(NOT_A_PLAIN_NAME.to_string());
    }
    if extension_of(&chars).is_none() {
        name.push('.');
        name.push('m');
        name.push('d');
        proof {
            assert(name@ =~= trim(raw@) + seq!['.', 'm', 'd']);
        }
    }
    Ok(name)
}

proof fn lemma_no_slash(path: Seq<char>)
    requires
        !path.contains('/'),
    ensures
        last_start(path) == 0,
        stripped(path) == path,
{
    lemma_last_start(path);
    if last_start(path) > 0 {
        assert(path.contains(path[last_start(path) - 1]));
    }
}

/// A name that was accepted is in the current folder. It is accepted again, and
/// stays as it is.
pub proof fn law_accepted_names_stay(typed: Seq<char>)
    requires
        accepted_name(typed) is Some,
    ensures
        !accepted_name(typed)->0.contains('/'),
        accepted_name(accepted_name(typed)->0) == accepted_name(typed),
{
    let name = trim(typed);
    crate::text::lemma_trim_is_stable(typed);
    if name.len() > 0 && extension(name) is None {
        let full = name + seq!['.', 'm', 'd'];
        crate::text::lemma_trimmed_ends(typed);
        assert(full[0] == name[0]);
        assert(full.last() == 'd');
        assert(crate::text::trim_start(full) == full);
        assert(trim(full) == full);
        assert(!full.contains('/')) by {
            if full.contains('/') {
                let i = choose|i: int| 0 <= i < full.len() && full[i] == '/';
                if i < name.len() {
                    assert(name.contains(name[i]));
                } else {
                    assert(full[i] == seq!['.', 'm', 'd'][i - name.len()]);
                }
            }
        }
        lemma_no_slash(full);
        assert(full.skip(0) == full);
        assert(full.len() >= 4);
        reveal_with_fuel(last_dot, 4);
        let n = full.len() as int;
        assert(full.drop_last().drop_last().last() == '.');
        assert(last_dot(full) == n - 3);
    }
}

proof fn lemma_last_start_behind(folder: Seq<char>, name: Seq<char>)
    requires
        !name.contains('/'),
    ensures
        last_start(folder + seq!['/'] + name) == folder.len() + 1,
    decreases name.len(),
{
    let path = folder + seq!['/'] + name;
    if name.len() == 0 {
        assert(path.last() == '/');
    } else {
        let t = name.drop_last();
        assert(path.last() == name.last());
        assert(name.contains(name[name.len() - 1]));
        assert forall|i: int| 0 <= i < t.len() implies t[i] != '/' by {
            assert(name.contains(name[i]));
        }
        assert(path.drop_last() =~= folder + seq!['/'] + t);
        lemma_last_start_behind(folder, t);
    }
}

/// A file has the name that is left of its path without its folder, and its
/// kind does not depend on the folder.
pub proof fn law_folders_do_not_matter(folder: Seq<char>, name: Seq<char>)
    requires
        plain_name(name),
    ensures
        file_name(name) == Some(name),
        file_name(folder + seq!['/'] + name) == Some(name),
        extension(folder + seq!['/'] + name) == extension(name),
        markdown_path(folder + seq!['/'] + name) == markdown_path(name),
        text_path(folder + seq!['/'] + name) == text_path(name),
{
    let path = folder + seq!['/'] + name;
    lemma_no_slash(name);
    assert(name.skip(0) =~= name);
    lemma_last_start_behind(folder, name);
    assert(path.skip(folder.len() as int + 1) =~= name);
    assert(stripped(path) == path);
}

proof fn lemma_last_dot(stem: Seq<char>, ext: Seq<char>)
    requires
        !ext.contains('.'),
    ensures
        last_dot(stem + seq!['.'] + ext) == stem.len(),
    decreases ext.len(),
{
    let name = stem + seq!['.'] + ext;
    if ext.len() == 0 {
        assert(name.last() == '.');
    } else {
        let t = ext.drop_last();
        assert(name.last() == ext.last());
        assert(ext.contains(ext[ext.len() - 1]));
        assert forall|i: int| 0 <= i < t.len() implies t[i] != '.' by {
            assert(ext.contains(ext[i]));
        }
        assert(name.drop_last() =~= stem + seq!['.'] + t);
        lemma_last_dot(stem, t);
    }
}

proof fn lemma_no_dot(name: Seq<char>)
    requires
        !name.contains('.'),
    ensures
        last_dot(name) == -1,
    decreases name.len(),
{
    if name.len() > 0 {
        assert(name.contains(name[name.len() - 1]));
        let t = name.drop_last();
        assert forall|i: int| 0 <= i < t.len() implies t[i] != '.' by {
            assert(name.contains(name[i]));
        }
        lemma_no_dot(t);
    }
}

/// The extension of a name is what follows its last dot. A name without a dot,
/// or with one only at its start, has none.
pub proof fn law_extensions_follow_the_last_dot(stem: Seq<char>, ext: Seq<char>)
    requires
        !ext.contains('.'),
        plain_name(stem + seq!['.'] + ext),
    ensures
        extension(stem + seq!['.'] + ext) == (if stem.len() == 0 {
            None
        } else {
            Some(ext)
        }),
        plain_name(ext) ==> extension(ext) is None,
{
    let name = stem + seq!['.'] + ext;
    lemma_no_slash(name);
    assert(name.skip(0) =~= name);
    lemma_last_dot(stem, ext);
    assert(name.skip(stem.len() as int + 1) =~= ext);
    if plain_name(ext) {
        lemma_no_slash(ext);
        assert(ext.skip(0) =~= ext);
        lemma_no_dot(ext);
    }
}

/// Files with the extension `md` or `markdown` are Markdown, and those with
/// `txt` or `text` plain text, in upper or lower case; no file is both.
pub proof fn law_extensions_tell_the_kind(stem: Seq<char>, ext: Seq<char>)
    requires
        stem.len() > 0,
        !ext.contains('.'),
        plain_name(stem + seq!['.'] + ext),
    ensures
        ({
            let name = stem + seq!['.'] + ext;
            let small = lowered(ext);
            &&& markdown_path(name) <==> small == seq!['m', 'd'] || small == seq![
                'm',
                'a',
                'r',
                'k',
                'd',
                'o',
                'w',
                'n',
            ]
            &&& text_path(name) <==> small == seq!['t', 'x', 't'] || small == seq!['t', 'e', 'x', 't']
            &&& !(markdown_path(name) && text_path(name))
        }),
{
    law_extensions_follow_the_last_dot(stem, ext);
    reveal_strlit("md");
    reveal_strlit("markdown");
    reveal_strlit("txt");
    reveal_strlit("text");
    let small = lowered(ext);
    assert("md"@ =~= seq!['m', 'd']);
    assert("markdown"@ =~= seq!['m', 'a', 'r', 'k', 'd', 'o', 'w', 'n']);
    assert("txt"@ =~= seq!['t', 'x', 't']);
    assert("text"@ =~= seq!['t', 'e', 'x', 't']);
    assert("md"@[0] == 'm' && "markdown"@[0] == 'm' && "txt"@[0] == 't' && "text"@[0] == 't');
}

/// In lower case, the letters from `A` to `Z` are those from `a` to `z`, in
/// order, and every other character is as it was.
pub proof fn law_lower_case_changes_capitals(c: char)
    ensures
        'A' <= c <= 'Z' ==> 'a' <= lower(c) <= 'z' && lower(c) as int - 'a' as int == c as int
            - 'A' as int,
        !('A' <= c <= 'Z') ==> lower(c) == c,
        lower(lower(c)) == lower(c),
{
}

/// A new file is named as it was typed, without white space around it. Where
/// that has no extension the file is Markdown, and its name goes on with the
/// extension; a name that leads to another folder is refused.
pub proof fn law_new_files_are_markdown(typed: Seq<char>)
    ensures
        ({
            let name = crate::text::trim(typed);
            match accepted_name(typed) {
                Some(full) => {
                    &&& name.len() <= full.len() && full.take(name.len() as int) == name
                    &&& name.len() == 0 ==> full.len() == 0
                    &&& name.len() > 0 ==> full == name || (extension(name) is None
                        && markdown_path(full))
                    &&& name.len() > 0 ==> extension(full) is Some
                },
                None => name.contains('/') || name == seq!['.'] || name == seq!['.', '.'],
            }
        }),
        crate::text::trim(typed).contains('/') ==> accepted_name(typed) is None,
        crate::text::trim(typed) == seq!['.'] || crate::text::trim(typed) == seq!['.', '.']
            ==> accepted_name(typed) is None,
{
    let name = crate::text::trim(typed);
    if name.len() > 0 && plain_name(name) {
        let full = accepted_name(typed)->0;
        assert(full.take(name.len() as int) =~= name);
        if extension(name) is None {
            let md = seq!['m', 'd'];
            assert(full =~= name + seq!['.'] + md);
            assert(md[0] == 'm' && md[1] == 'd');
            law_accepted_names_stay(typed);
            assert(full.len() >= 4);
            assert(lowered(md) =~= md);
            law_extensions_follow_the_last_dot(name, md);
            law_extensions_tell_the_kind(name, md);
        }
    } else if name.len() == 0 {
        assert(name.take(0) =~= name);
    }
}

} // verus!
