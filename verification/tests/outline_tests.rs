use omp_hooks::outline::{covers, extname, is_source, lang_for, outline, patterns, render, utf16_len};

#[test]
fn every_pattern_compiles() {
    for lang in [
        "js", "py", "go", "rs", "java", "rb", "php", "sh", "sql", "swift", "c",
    ] {
        assert!(patterns(lang).is_some(), "{lang}");
    }
    assert!(patterns("nope").is_none());
}

#[test]
fn lang_for_each_extension() {
    let cases: &[(&str, Option<&str>)] = &[
        ("a.js", Some("js")),
        ("a.jsx", Some("js")),
        ("a.mjs", Some("js")),
        ("a.cjs", Some("js")),
        ("a.ts", Some("js")),
        ("a.tsx", Some("js")),
        ("a.py", Some("py")),
        ("a.go", Some("go")),
        ("a.rs", Some("rs")),
        ("a.java", Some("java")),
        ("a.kt", Some("java")),
        ("a.scala", Some("java")),
        ("a.cs", Some("java")),
        ("a.rb", Some("rb")),
        ("a.php", Some("php")),
        ("a.sh", Some("sh")),
        ("a.bash", Some("sh")),
        ("a.zsh", Some("sh")),
        ("a.sql", Some("sql")),
        ("a.swift", Some("swift")),
        ("a.c", Some("c")),
        ("a.h", Some("c")),
        ("a.cc", Some("c")),
        ("a.cpp", Some("c")),
        ("a.hpp", Some("c")),
    ];
    assert_eq!(cases.len(), 25);
    for (p, want) in cases {
        assert_eq!(lang_for(p), *want, "{p}");
        assert_eq!(lang_for(&p.to_uppercase()), *want, "{p} uppercased");
    }
}

#[test]
fn lang_for_non_source() {
    for p in [
        "README.md",
        "Makefile",
        "/etc/hosts",
        "",
        "a.txt",
        "weird.jsx.bak",
    ] {
        assert_eq!(lang_for(p), None, "{p}");
        assert!(!is_source(p), "{p}");
    }
}

#[test]
fn extname_matches_node_semantics() {
    // Dotfiles and extensionless names have no extension in Node.
    assert_eq!(extname(".bashrc"), "");
    assert_eq!(extname("/home/me/.bashrc"), "");
    assert_eq!(extname("Makefile"), "");
    assert_eq!(extname(".."), "");
    assert_eq!(extname("."), "");
    assert_eq!(extname("/a/b/"), "");
    assert_eq!(extname("index."), ".");
    assert_eq!(extname("a.b.c.py"), ".py");
    assert_eq!(extname("/a.dir/file"), "");
    assert_eq!(extname("/a.dir/file.rs"), ".rs");
    assert_eq!(extname("a.tar.gz"), ".gz");
    // Dotfiles must not resolve through a naive rsplit.
    assert_eq!(lang_for(".rs"), None);
    assert_eq!(lang_for("/x/.py"), None);
}

#[test]
fn line_count_uses_split_not_lines() {
    assert_eq!(outline("", "a.txt", 200).unwrap().lines, 1);
    assert_eq!(outline("a", "a.txt", 200).unwrap().lines, 1);
    assert_eq!(outline("a\n", "a.txt", 200).unwrap().lines, 2);
    assert_eq!(outline("a\nb\n", "a.txt", 200).unwrap().lines, 3);
    assert_eq!(outline("\n\n", "a.txt", 200).unwrap().lines, 3);
    // CRLF: split('\n') keeps the '\r' inside the segment, so the count is
    // the same as for LF-only text.
    assert_eq!(outline("a\r\nb\r\n", "a.txt", 200).unwrap().lines, 3);
}

#[test]
fn non_source_yields_no_rows() {
    let o = outline("def foo():\n    pass\n", "notes.txt", 200).unwrap();
    assert_eq!(o.lines, 3);
    assert!(o.rows.is_empty());
}

#[test]
fn body_lines_are_excluded() {
    let src = "\
import os


def alpha(x):
    total = x + 1
    if total > 3:
        return total
    return 0


class Beta:
    @property
    def gamma(self):
        return 1
";
    let o = outline(src, "m.py", 200).unwrap();
    assert_eq!(
        o.rows,
        vec![
            "4:def alpha(x):".to_string(),
            "11:class Beta:".to_string(),
            "12:    @property".to_string(),
            "13:    def gamma(self):".to_string(),
        ]
    );
}

#[test]
fn rust_and_js_and_sql_families_match() {
    let o = outline("pub fn a() {}\n  impl Foo {\nlet x = 1;\n", "m.rs", 200).unwrap();
    assert_eq!(o.rows, vec!["1:pub fn a() {}", "2:  impl Foo {"]);

    let o = outline(
        "export const f = (a) => a;\nexport class K {}\nconst z = 3;\n",
        "m.ts",
        200,
    )
    .unwrap();
    assert_eq!(o.rows, vec!["1:export const f = (a) => a;", "2:export class K {}"]);

    // The sql patterns carry the /i flag.
    let o = outline("select 1\n  create table t (a int);\n-- x\n", "q.sql", 200).unwrap();
    assert_eq!(o.rows, vec!["1:select 1", "2:  create table t (a int);"]);
}

#[test]
fn trailing_whitespace_is_stripped_and_blank_lines_skipped() {
    let o = outline("def a():   \t\n   \n\t\n", "m.py", 200).unwrap();
    assert_eq!(o.rows, vec!["1:def a():"]);
    assert_eq!(o.lines, 4);
    // A '\r' from CRLF input is JS whitespace and gets stripped too.
    let o = outline("def a():\r\n", "m.py", 200).unwrap();
    assert_eq!(o.rows, vec!["1:def a():"]);
}

#[test]
fn truncates_to_160_units() {
    let name = "a".repeat(300);
    let src = format!("def {name}():\n");
    let o = outline(&src, "m.py", 200).unwrap();
    assert_eq!(o.rows.len(), 1);
    let sig = &o.rows[0]["2:".len()..];
    assert_eq!(sig.chars().count(), 160);
    assert_eq!(sig, &format!("def {name}")[..160]);
}

/// Astral characters count as 2 UTF-16 units, like JS `String.length`.
#[test]
fn astral_characters_count_as_two_units() {
    // "def " + 154 'a' = 158 units, emoji lands on 158..160: kept whole.
    let src = format!("def {}\u{1F600}{}():\n", "a".repeat(154), "b".repeat(50));
    let o = outline(&src, "m.py", 200).unwrap();
    let sig = &o.rows[0]["1:".len()..];
    assert_eq!(utf16_len(sig), 160);
    assert!(sig.ends_with('\u{1F600}'));

    // 400-unit skip threshold also counts the emoji as 2.
    let at_400 = format!("def {}\u{1F600}", "a".repeat(394));
    assert_eq!(utf16_len(&at_400), 400);
    assert_eq!(outline(&at_400, "m.py", 200).unwrap().rows.len(), 1);
    let at_401 = format!("def {}\u{1F600}", "a".repeat(395));
    assert_eq!(outline(&at_401, "m.py", 200).unwrap().rows.len(), 0);
}

/// A character that straddles the cut is dropped whole.
#[test]
fn surrogate_straddle_drops_the_character() {
    // "def " + 155 'a' = 159 units, emoji straddles 159..161.
    let src = format!("def {}\u{1F600}bbb():\n", "a".repeat(155));
    let o = outline(&src, "m.py", 200).unwrap();
    let sig = &o.rows[0]["1:".len()..];
    assert_eq!(utf16_len(sig), 159);
    assert!(sig.ends_with('a'));
}

#[test]
fn lines_over_400_units_are_skipped() {
    let ok = format!("def {}():", "a".repeat(393)); // exactly 400
    assert_eq!(utf16_len(&ok), 400);
    let too_long = format!("def {}():", "a".repeat(394)); // 401
    assert_eq!(utf16_len(&too_long), 401);
    assert_eq!(outline(&ok, "m.py", 200).unwrap().rows.len(), 1);
    assert_eq!(outline(&too_long, "m.py", 200).unwrap().rows.len(), 0);
}

#[test]
fn max_rows_caps_output() {
    let src = (0..500)
        .map(|i| format!("def f{i}():\n    pass\n"))
        .collect::<String>();
    assert_eq!(outline(&src, "m.py", 200).unwrap().rows.len(), 200);
    assert_eq!(outline(&src, "m.py", 3).unwrap().rows.len(), 3);
    assert_eq!(outline(&src, "m.py", 0).unwrap().rows.len(), 0);
    let capped = outline(&src, "m.py", 200).unwrap();
    assert_eq!(capped.rows[199], "399:def f199():");
}

#[test]
fn covers_boundaries() {
    assert!(!covers(800, 5));
    assert!(covers(800, 10));
    assert!(covers(420, 5));
    assert!(!covers(420, 4));
    assert!(covers(100, 4));
    assert!(!covers(0, 3));
    assert!(covers(0, 4));
    // Floor division, matching Math.floor: 799/80 -> 9, not 10.
    assert!(covers(799, 9));
    assert!(!covers(800, 9));
}

#[test]
fn render_is_byte_exact() {
    let rows = vec!["1:def a():".to_string(), "9:class B:".to_string()];
    let got = render("/x/m.py", 42, &rows);
    assert_eq!(
        got,
        "[/x/m.py] 42 lines - structural outline only, bodies elided.\n\n\
         1:def a():\n9:class B:\n\n\
         [Re-read only what you need: Read(file_path, offset, limit) using the line numbers above. If you genuinely need the whole file, just call Read again on this path - it will go through.]"
    );
}

#[test]
fn render_with_no_rows() {
    let got = render("m.py", 1, &[]);
    assert!(got.starts_with("[m.py] 1 lines - structural outline only, bodies elided.\n\n\n\n["));
}

// ---------------------------------------------------------------- own tests

#[test]
fn go_java_c_families_match() {
    let o = outline("func main() {\n\tx := 1\n}\ntype T struct{}\n", "m.go", 200).unwrap();
    assert_eq!(o.rows, vec!["1:func main() {", "4:type T struct{}"]);
    let o = outline("#include <stdio.h>\nint main(void) {\n  return 0;\n}\n", "m.c", 200).unwrap();
    assert_eq!(o.rows, vec!["1:#include <stdio.h>", "2:int main(void) {"]);
    let o = outline("public class A {\n  int x;\n}\n", "A.java", 200).unwrap();
    assert_eq!(o.rows, vec!["1:public class A {"]);
}

#[test]
fn unicode_extension_is_lowercased() {
    // U+212A KELVIN SIGN lowercases to an ASCII 'k'.
    assert_eq!(lang_for("a.\u{212A}T"), Some("java"));
    assert_eq!(lang_for("A.PY"), Some("py"));
}

#[test]
fn row_numbers_are_one_based_and_blank_lines_count() {
    let o = outline("\n\n\ndef z():\n", "m.py", 200).unwrap();
    assert_eq!(o.lines, 5);
    assert_eq!(o.rows, vec!["4:def z():"]);
}

#[test]
fn rows_never_exceed_max_rows() {
    let src = "def a():\ndef b():\ndef c():\n";
    for m in 0..5 {
        let o = outline(src, "m.py", m).unwrap();
        assert!(o.rows.len() <= m);
        assert_eq!(o.rows.len(), m.min(3));
    }
}

#[test]
fn covers_at_exactly_the_floor() {
    // lines / 80 = 10 once lines reach 800; below that the floor is 4.
    assert!(covers(319, 4));
    assert!(!covers(400, 4));
    assert!(covers(400, 5));
}

#[test]
fn render_joins_rows_with_single_newlines() {
    let rows = vec!["1:a".to_string(), "2:b".to_string(), "3:c".to_string()];
    let got = render("p", 3, &rows);
    assert!(got.contains("\n\n1:a\n2:b\n3:c\n\n[Re-read"));
}

#[test]
fn smaller_row_limit_gives_a_prefix() {
    let text = "def a():\n    pass\ndef b():\ndef c():\n";
    let small = outline(text, "m.py", 2).unwrap();
    let large = outline(text, "m.py", 5).unwrap();
    assert_eq!(small.lines, large.lines);
    assert_eq!(small.rows, vec!["1:def a():".to_string(), "3:def b():".to_string()]);
    assert_eq!(large.rows[..2], small.rows[..]);
    assert_eq!(large.rows.len(), 3);
}
