use proguard::mapper::ProguardMapper;
use proguard::mapping::{LineMapping, ProguardRecord};
use proguard::stacktrace::{split_lines, StackFrame, TraceLine};

fn class(original: &str, obfuscated: &str) -> ProguardRecord {
    ProguardRecord::Class {
        original: String::from(original),
        obfuscated: String::from(obfuscated),
    }
}

fn method(
    original: &str,
    obfuscated: &str,
    original_class: Option<&str>,
    line_mapping: Option<LineMapping>,
) -> ProguardRecord {
    ProguardRecord::Method {
        original: String::from(original),
        obfuscated: String::from(obfuscated),
        original_class: original_class.map(String::from),
        line_mapping,
    }
}

fn lines(
    startline: usize,
    endline: usize,
    original_startline: Option<usize>,
    original_endline: Option<usize>,
) -> Option<LineMapping> {
    Some(LineMapping {
        startline,
        endline,
        original_startline,
        original_endline,
    })
}

fn frame(class: &str, method: &str, file: Option<&str>, line: usize) -> StackFrame {
    StackFrame {
        class: String::from(class),
        method: String::from(method),
        file: file.map(String::from),
        line,
    }
}

fn collect(mapper: &ProguardMapper, f: &StackFrame) -> Vec<StackFrame> {
    let mut iter = mapper.remap_frame(f);
    let mut out = Vec::new();
    while let Some(fr) = iter.next() {
        out.push(fr);
    }
    out
}

#[test]
fn class_only_mapping() {
    let records = vec![class("android.arch.core.executor.ArchTaskExecutor", "a.a.a.a.c")];
    let mapper = ProguardMapper::new(&records);
    assert_eq!(
        mapper.remap_class("a.a.a.a.c"),
        Some("android.arch.core.executor.ArchTaskExecutor")
    );
    assert_eq!(mapper.remap_class("unknown"), None);
}

#[test]
fn later_class_record_overwrites() {
    let records = vec![class("com.example.First", "a"), class("com.example.Second", "a")];
    let mapper = ProguardMapper::new(&records);
    assert_eq!(mapper.remap_class("a"), Some("com.example.Second"));
}

#[test]
fn empty_original_is_not_indexed() {
    let records = vec![class("", "a"), method("bar", "c", None, lines(1, 1, Some(2), Some(2)))];
    let mapper = ProguardMapper::new(&records);
    assert_eq!(mapper.remap_class("a"), None);
    assert!(collect(&mapper, &frame("a", "c", None, 1)).is_empty());
}

#[test]
fn single_range_line_shift() {
    let records = vec![
        class("com.Foo", "a.b"),
        method("void bar()", "c", None, lines(4, 4, Some(12), Some(12))),
    ];
    let mapper = ProguardMapper::new(&records);
    let got = collect(&mapper, &frame("a.b", "c", Some("Foo.java"), 4));
    assert_eq!(got, vec![frame("com.Foo", "void bar()", Some("Foo.java"), 12)]);
}

#[test]
fn offset_is_preserved_within_range() {
    let records = vec![
        class("com.Foo", "a.b"),
        method("void bar()", "c", None, lines(10, 20, Some(100), Some(110))),
    ];
    let mapper = ProguardMapper::new(&records);
    let got = collect(&mapper, &frame("a.b", "c", Some("Foo.java"), 17));
    assert_eq!(got, vec![frame("com.Foo", "void bar()", Some("Foo.java"), 107)]);
}

#[test]
fn inlined_call_same_class() {
    let records = vec![
        class("com.Foo", "a.b"),
        method("void inner()", "c", None, lines(10, 10, Some(40), Some(40))),
        method("void outer()", "c", None, lines(10, 10, Some(77), None)),
    ];
    let mapper = ProguardMapper::new(&records);
    let got = collect(&mapper, &frame("a.b", "c", Some("Foo.java"), 10));
    assert_eq!(
        got,
        vec![
            frame("com.Foo", "void inner()", Some("Foo.java"), 40),
            frame("com.Foo", "void outer()", Some("Foo.java"), 77),
        ]
    );
}

#[test]
fn foreign_class_inlining() {
    let records = vec![
        class("com.Helper", "a.h"),
        class("com.Foo", "a.b"),
        method("void helper()", "c", Some("com.Helper"), lines(20, 20, Some(5), Some(5))),
        method("void host()", "c", None, lines(20, 20, Some(88), None)),
    ];
    let mapper = ProguardMapper::new(&records);
    let got = collect(&mapper, &frame("a.b", "c", Some("Foo.java"), 20));
    assert_eq!(
        got,
        vec![
            frame("com.Helper", "void helper()", None, 5),
            frame("com.Foo", "void host()", Some("Foo.java"), 88),
        ]
    );
}

#[test]
fn lineless_mapping_matches_any_line() {
    let records = vec![class("com.Foo", "a.b"), method("void bar()", "c", None, None)];
    let mapper = ProguardMapper::new(&records);
    let got = collect(&mapper, &frame("a.b", "c", Some("Foo.java"), 12345));
    assert_eq!(got, vec![frame("com.Foo", "void bar()", Some("Foo.java"), 0)]);
}

#[test]
fn no_member_matches_line_outside_range() {
    let records = vec![
        class("com.Foo", "a.b"),
        method("void bar()", "c", None, lines(4, 8, Some(12), Some(16))),
    ];
    let mapper = ProguardMapper::new(&records);
    assert!(collect(&mapper, &frame("a.b", "c", None, 3)).is_empty());
    assert!(collect(&mapper, &frame("a.b", "c", None, 9)).is_empty());
    assert_eq!(collect(&mapper, &frame("a.b", "c", None, 8)).len(), 1);
}

#[test]
fn unknown_class_or_method_yields_nothing() {
    let records = vec![
        class("com.Foo", "a.b"),
        method("void bar()", "c", None, lines(4, 4, Some(12), Some(12))),
    ];
    let mapper = ProguardMapper::new(&records);
    assert!(collect(&mapper, &frame("x.y", "c", None, 4)).is_empty());
    assert!(collect(&mapper, &frame("a.b", "d", None, 4)).is_empty());
}

#[test]
fn iterator_is_fused() {
    let records = vec![
        class("com.Foo", "a.b"),
        method("void bar()", "c", None, lines(4, 4, Some(12), Some(12))),
    ];
    let mapper = ProguardMapper::new(&records);
    let f = frame("a.b", "c", None, 4);
    let mut iter = mapper.remap_frame(&f);
    assert!(iter.next().is_some());
    assert!(iter.next().is_none());
    assert!(iter.next().is_none());
}

#[test]
fn records_of_other_kinds_are_ignored() {
    let records = vec![
        ProguardRecord::Other,
        class("com.Foo", "a.b"),
        ProguardRecord::Other,
        method("void bar()", "c", None, lines(4, 4, Some(12), Some(12))),
    ];
    let mapper = ProguardMapper::new(&records);
    assert_eq!(mapper.remap_class("a.b"), Some("com.Foo"));
    assert_eq!(collect(&mapper, &frame("a.b", "c", None, 4)).len(), 1);
}

#[test]
fn mapping_without_original_range_is_identity() {
    // A line mapping without an original start maps the range onto itself.
    let records = vec![
        class("com.Foo", "a.b"),
        method("void bar()", "c", None, lines(7, 9, None, None)),
    ];
    let mapper = ProguardMapper::new(&records);
    let got = collect(&mapper, &frame("a.b", "c", Some("Foo.java"), 8));
    assert_eq!(got, vec![frame("com.Foo", "void bar()", Some("Foo.java"), 8)]);
}

#[test]
fn rewritten_trace_lines() {
    let records = vec![
        class("com.Foo", "a.b"),
        method("bar", "c", None, lines(4, 4, Some(12), Some(12))),
    ];
    let mapper = ProguardMapper::new(&records);
    let trace = vec![
        TraceLine::Raw(String::from("java.lang.NullPointerException: oops")),
        TraceLine::Frame(
            String::from("    at a.b.c(SourceFile:4)"),
            frame("a.b", "c", Some("Foo.java"), 4),
        ),
        TraceLine::Frame(
            String::from("    at x.y.z(SourceFile:1)"),
            frame("x.y", "z", Some("Other.java"), 1),
        ),
    ];
    let out = mapper.remap_stacktrace(&trace);
    assert_eq!(
        out,
        "java.lang.NullPointerException: oops\n    at com.Foo.bar(Foo.java:12)\n    at x.y.z(SourceFile:1)\n"
    );
}

#[test]
fn rewritten_trace_expands_inlined_frames() {
    let records = vec![
        class("com.Foo", "a.b"),
        method("inner", "c", Some("com.Helper"), lines(20, 20, Some(5), Some(5))),
        method("host", "c", None, lines(20, 20, Some(88), None)),
    ];
    let mapper = ProguardMapper::new(&records);
    let trace = vec![TraceLine::Frame(
        String::from("    at a.b.c(SourceFile:20)"),
        frame("a.b", "c", Some("Foo.java"), 20),
    )];
    let out = mapper.remap_stacktrace(&trace);
    assert_eq!(
        out,
        "    at com.Helper.inner(<unknown>:5)\n    at com.Foo.host(Foo.java:88)\n"
    );
}

#[test]
fn empty_expansion_passes_the_line_through() {
    let records = vec![
        class("com.Foo", "a.b"),
        method("bar", "c", None, lines(4, 4, Some(12), Some(12))),
    ];
    let mapper = ProguardMapper::new(&records);
    let trace = vec![TraceLine::Frame(
        String::from("    at a.b.c(SourceFile:99)"),
        frame("a.b", "c", Some("Foo.java"), 99),
    )];
    let out = mapper.remap_stacktrace(&trace);
    assert_eq!(out, "    at a.b.c(SourceFile:99)\n");
}

#[test]
fn multi_digit_line_numbers_render_in_decimal() {
    let records = vec![
        class("com.Foo", "a.b"),
        method("bar", "c", None, lines(1, 1, Some(1234567890), Some(1234567890))),
    ];
    let mapper = ProguardMapper::new(&records);
    let trace = vec![TraceLine::Frame(
        String::from("    at a.b.c(SourceFile:1)"),
        frame("a.b", "c", None, 1),
    )];
    let out = mapper.remap_stacktrace(&trace);
    assert_eq!(out, "    at com.Foo.bar(<unknown>:1234567890)\n");
}

#[test]
fn largest_original_line_is_preserved() {
    let records = vec![
        class("com.Foo", "a.b"),
        method("bar", "c", None, lines(1, 1, Some(usize::MAX), Some(usize::MAX))),
    ];
    let mapper = ProguardMapper::new(&records);
    let got = collect(&mapper, &frame("a.b", "c", None, 1));
    assert_eq!(got, vec![frame("com.Foo", "bar", None, usize::MAX)]);
}

#[test]
fn wildcard_line_renders_as_zero() {
    let records = vec![class("com.Foo", "a.b"), method("bar", "c", None, None)];
    let mapper = ProguardMapper::new(&records);
    let trace = vec![TraceLine::Frame(
        String::from("    at a.b.c(SourceFile:7)"),
        frame("a.b", "c", None, 7),
    )];
    assert_eq!(mapper.remap_stacktrace(&trace), "    at com.Foo.bar(<unknown>:0)\n");
}

// A whole trace, framed by split_lines and classified by a stand-in for
// the external frame parser, then rewritten.
#[test]
fn split_classify_and_rewrite() {
    let records = vec![
        class("com.Foo", "a.b"),
        method("bar", "c", None, lines(4, 4, Some(12), Some(12))),
    ];
    let mapper = ProguardMapper::new(&records);
    let raw = "java.lang.NullPointerException\r\n    at a.b.c(SourceFile:4)\n";
    let classified: Vec<TraceLine> = split_lines(raw)
        .into_iter()
        .map(|line| {
            if line.trim_start().starts_with("at a.b.c") {
                let f = frame("a.b", "c", Some("Foo.java"), 4);
                TraceLine::Frame(line, f)
            } else {
                TraceLine::Raw(line)
            }
        })
        .collect();
    assert_eq!(
        mapper.remap_stacktrace(&classified),
        "java.lang.NullPointerException\n    at com.Foo.bar(Foo.java:12)\n"
    );
}

#[test]
fn split_lines_at_both_line_endings() {
    let got = split_lines("first\nsecond\r\nthird");
    assert_eq!(got, vec!["first", "second", "third"]);
}

#[test]
fn split_lines_edge_cases() {
    assert!(split_lines("").is_empty());
    assert_eq!(split_lines("x\n"), vec!["x"]);
    assert_eq!(split_lines("a\n\nb"), vec!["a", "", "b"]);
    // A carriage return not followed by a line feed stays in the line.
    assert_eq!(split_lines("a\r\nb\rc\n"), vec!["a", "b\rc"]);
}
