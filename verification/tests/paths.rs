use std::path::{Component, Path};
use writerm::paths::{
    is_markdown_name, is_markdown_path, is_plain_text_name, markdown_filename, path_extension,
};

const PATHS: [&str; 40] = [
    "", ".", "..", "/", "//", "./", "../", "a", "a.md", "a.MD", "a.Markdown", "a.txt", "a.TEXT",
    ".md", "..md", "...md", "a.", "a..", "a.b.c", "a/b.md", "a/b.md/", "a/b.md/.", "a/b.md/..",
    "a/.md", "/a.md", "/a.b/c", "./a.md", "../a.md", "a//b.md", "a/./b", "a b.md", "é.md",
    "a.mé", "a.md.", "a.md//", "a.md/./.", "a/..", "a/../", "x.\u{212a}", ". .md",
];

#[test]
fn extensions_are_those_of_std() {
    for path in PATHS {
        let expected = Path::new(path).extension().map(|e| e.to_str().unwrap().to_string());
        assert_eq!(path_extension(path), expected, "{path:?}");
    }
}

#[test]
fn markdown_and_text_go_by_the_extension() {
    for path in PATHS {
        let ext = Path::new(path).extension().map(|e| e.to_str().unwrap().to_ascii_lowercase());
        let ext = ext.as_deref();
        let markdown = ext == Some("md") || ext == Some("markdown");
        assert_eq!(is_markdown_path(path), markdown, "{path:?}");
        assert_eq!(is_markdown_name(path), markdown, "{path:?}");
        assert_eq!(
            is_plain_text_name(path),
            ext == Some("txt") || ext == Some("text"),
            "{path:?}"
        );
    }
}

#[test]
fn names_in_the_current_folder_are_accepted() {
    for path in PATHS {
        let trimmed = path.trim();
        let mut components = Path::new(trimmed).components();
        let plain = matches!(components.next(), Some(Component::Normal(_)))
            && components.next().is_none()
            && !trimmed.contains('/');
        let expected = if trimmed.is_empty() {
            Ok(String::new())
        } else if !plain {
            Err("Use a filename in the current folder".to_string())
        } else if Path::new(trimmed).extension().is_some() {
            Ok(trimmed.to_string())
        } else {
            Ok(format!("{trimmed}.md"))
        };
        assert_eq!(markdown_filename(path), expected, "{path:?}");
    }
    assert_eq!(markdown_filename("  note \n"), Ok("note.md".to_string()));
    assert_eq!(markdown_filename(" plan.txt"), Ok("plan.txt".to_string()));
}

#[test]
fn names_with_a_slash_are_not_accepted() {
    for typed in ["foo/", " foo/ ", "foo//", "foo/.", "a.md/", "a/b", "./a", "/"] {
        let refused = Err("Use a filename in the current folder".to_string());
        assert_eq!(markdown_filename(typed), refused, "{typed:?}");
    }
}

#[test]
fn accepted_names_are_accepted_again() {
    for typed in ["note", " a b ", "x.txt", ".hidden", "a.", "é"] {
        let name = markdown_filename(typed).unwrap();
        assert_eq!(markdown_filename(&name), Ok(name.clone()), "{typed:?}");
    }
}
