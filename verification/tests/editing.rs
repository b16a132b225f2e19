use std::ops::Range;
use std::sync::Arc;
use syntax_map::buffer::{BufferSnapshot, Edit, Position};
use syntax_map::language::{Grammar, InjectionConfig, LanguageDef, LanguageRegistry};
use syntax_map::position::Point;
use syntax_map::SyntaxMap;

fn rust_lang() -> LanguageDef {
    let ts_language = tree_sitter_rust::language();
    let query = tree_sitter::Query::new(
        ts_language,
        r#"
            (macro_invocation
                (token_tree) @content
                (#set! "language" "rust"))
        "#,
    )
    .unwrap();
    let content_capture_ix = query.capture_index_for_name("content").unwrap();
    let language_capture_ix = query.capture_index_for_name("language");
    let languages_by_pattern_ix = (0..query.pattern_count())
        .map(|ix| {
            query.property_settings(ix).iter().find_map(|setting| {
                if setting.key.as_ref() == "language" {
                    setting.value.as_ref().map(|value| value.to_string())
                } else {
                    None
                }
            })
        })
        .collect();
    LanguageDef {
        name: "rust".to_string(),
        grammar: Some(Arc::new(Grammar {
            ts_language,
            injection_config: Some(InjectionConfig {
                query,
                content_capture_ix,
                language_capture_ix,
                languages_by_pattern_ix,
            }),
        })),
    }
}

fn registry_with(language: &Arc<LanguageDef>) -> Arc<LanguageRegistry> {
    let mut registry = LanguageRegistry::new();
    registry.add(language.clone());
    Arc::new(registry)
}

struct Buffer {
    snapshot: BufferSnapshot,
    history: Vec<Vec<u8>>,
}

impl Buffer {
    fn new(text: &str) -> Buffer {
        Buffer { snapshot: BufferSnapshot::new(0, text.as_bytes().to_vec()), history: Vec::new() }
    }

    fn text(&self) -> String {
        String::from_utf8(self.snapshot.text.clone()).unwrap()
    }

    fn set_text(&mut self, text: Vec<u8>) {
        self.snapshot = BufferSnapshot::new(self.snapshot.version + 1, text);
    }

    fn edit(&mut self, range: Range<usize>, new_text: &str) {
        let mut text = self.snapshot.text.clone();
        self.history.push(text.clone());
        text.splice(range, new_text.bytes());
        self.set_text(text);
    }

    fn undo(&mut self) {
        let text = self.history.pop().unwrap();
        self.set_text(text);
    }

    fn offset(&self, point: Point) -> usize {
        let mut row = 0;
        let mut offset = 0;
        while row < point.row {
            if self.snapshot.text[offset] == b'\n' {
                row += 1;
            }
            offset += 1;
        }
        offset + point.column
    }
}

fn edits_between(old: &BufferSnapshot, new: &BufferSnapshot) -> Vec<Edit> {
    let a = &old.text;
    let b = &new.text;
    let mut prefix = 0;
    while prefix < a.len() && prefix < b.len() && a[prefix] == b[prefix] {
        prefix += 1;
    }
    let mut suffix = 0;
    while suffix < a.len() - prefix
        && suffix < b.len() - prefix
        && a[a.len() - 1 - suffix] == b[b.len() - 1 - suffix]
    {
        suffix += 1;
    }
    if prefix == a.len() && prefix == b.len() {
        return Vec::new();
    }
    let position = |buffer: &BufferSnapshot, offset: usize| Position {
        offset,
        point: buffer.point_at(offset),
    };
    vec![Edit {
        old_start: position(old, prefix),
        old_end: position(old, a.len() - suffix),
        new_start: position(new, prefix),
        new_end: position(new, b.len() - suffix),
    }]
}

fn interpolate(syntax_map: &mut SyntaxMap, old: &BufferSnapshot, new: &BufferSnapshot) {
    let edits = edits_between(old, new);
    assert!(new.accepts(&edits));
    syntax_map.interpolate(&edits, new);
}

fn snapshot_of(buffer: &Buffer) -> BufferSnapshot {
    BufferSnapshot::new(buffer.snapshot.version, buffer.snapshot.text.clone())
}

fn range_for_text(buffer: &Buffer, text: &str) -> Range<usize> {
    let start = buffer.text().find(text).unwrap();
    start..start + text.len()
}

fn string_contains_sequence(text: &str, parts: &[&str]) -> bool {
    let mut last_part_end = 0;
    for part in parts {
        if let Some(start_ix) = text[last_part_end..].find(part) {
            last_part_end = start_ix + part.len();
        } else {
            return false;
        }
    }
    true
}

fn assert_layers_for_range(
    syntax_map: &SyntaxMap,
    buffer: &Buffer,
    range: Range<Point>,
    expected_layers: &[&str],
) {
    let range = buffer.offset(range.start)..buffer.offset(range.end);
    let layers = syntax_map.layers_for_range(range, &buffer.snapshot);
    assert_eq!(layers.len(), expected_layers.len(), "wrong number of layers");
    for (i, ((_, tree, _), expected_s_exp)) in layers.iter().zip(expected_layers.iter()).enumerate()
    {
        let actual_s_exp = tree.root_node().to_sexp();
        assert!(
            string_contains_sequence(
                &actual_s_exp,
                &expected_s_exp.split("...").collect::<Vec<_>>()
            ),
            "layer {i}:\n\nexpected: {expected_s_exp}\nactual:   {actual_s_exp}",
        );
    }
}

fn marked_text_ranges(marked: &str) -> (String, Vec<Range<usize>>) {
    let mut text = String::new();
    let mut ranges = Vec::new();
    let mut start = 0;
    for c in marked.chars() {
        match c {
            '«' => start = text.len(),
            '»' => ranges.push(start..text.len()),
            _ => text.push(c),
        }
    }
    (text, ranges)
}

fn assert_node_ranges(syntax_map: &SyntaxMap, buffer: &Buffer, query: &str, marked_string: &str) {
    let mut cursor = tree_sitter::QueryCursor::new();
    let mut actual_ranges = Vec::<Range<usize>>::new();
    for (grammar, tree, (start_byte, _)) in syntax_map.layers(&buffer.snapshot) {
        let query = tree_sitter::Query::new(grammar.ts_language, query).unwrap();
        let text = &buffer.snapshot.text[start_byte..];
        for (mat, ix) in cursor.captures(&query, tree.root_node(), text) {
            let range = mat.captures[ix].node.byte_range();
            actual_ranges.push(start_byte + range.start..start_byte + range.end);
        }
    }
    let (text, expected_ranges) = marked_text_ranges(marked_string);
    assert_eq!(text, buffer.text());
    assert_eq!(actual_ranges, expected_ranges);
}

fn edit_buffer(buffer: &mut Buffer, marked_string: &str) {
    let old_text = buffer.text();
    let (new_text, mut ranges) = marked_text_ranges(marked_string);
    assert_eq!(ranges.len(), 1);

    let inserted_range = ranges.pop().unwrap();
    let inserted_text = new_text[inserted_range.clone()].to_string();
    let deleted_len = (inserted_range.len() as isize + old_text.len() as isize
        - new_text.len() as isize) as usize;
    let deleted_range = inserted_range.start..inserted_range.start + deleted_len;

    assert_eq!(old_text[..deleted_range.start], new_text[..inserted_range.start], "invalid edit");
    assert_eq!(old_text[deleted_range.end..], new_text[inserted_range.end..], "invalid edit");

    buffer.edit(deleted_range, &inserted_text);
}

fn edit_buffer_n(buffer: &mut Buffer, marked_strings: &[&str]) {
    for marked_string in marked_strings {
        edit_buffer(buffer, marked_string);
    }
}

const SAMPLE: &str = "fn a() {\n    assert_eq!(\n        b(vec![C {}]),\n        vec![d.e],\n    );\n    println!(\"{}\", f(|_| true));\n}\n";

#[test]
fn test_syntax_map_layers_for_range() {
    let language = Arc::new(rust_lang());
    let registry = registry_with(&language);

    let mut buffer = Buffer::new(SAMPLE);

    let mut syntax_map = SyntaxMap::new();
    syntax_map.set_language_registry(registry.clone());
    syntax_map.reparse(language.clone(), &buffer.snapshot);

    assert_layers_for_range(
        &syntax_map,
        &buffer,
        Point { row: 2, column: 0 }..Point { row: 2, column: 0 },
        &[
            "...(function_item ... (block (expression_statement (macro_invocation...",
            "...(tuple_expression (call_expression ... arguments: (arguments (macro_invocation...",
        ],
    );
    assert_layers_for_range(
        &syntax_map,
        &buffer,
        Point { row: 2, column: 14 }..Point { row: 2, column: 16 },
        &[
            "...(function_item ...",
            "...(tuple_expression (call_expression ... arguments: (arguments (macro_invocation...",
            "...(array_expression (struct_expression ...",
        ],
    );
    assert_layers_for_range(
        &syntax_map,
        &buffer,
        Point { row: 3, column: 14 }..Point { row: 3, column: 16 },
        &[
            "...(function_item ...",
            "...(tuple_expression (call_expression ... arguments: (arguments (macro_invocation...",
            "...(array_expression (field_expression ...",
        ],
    );
    assert_layers_for_range(
        &syntax_map,
        &buffer,
        Point { row: 5, column: 12 }..Point { row: 5, column: 16 },
        &[
            "...(function_item ...",
            "...(call_expression ... (arguments (closure_expression ...",
        ],
    );

    // Replace a vec! macro invocation with a plain slice, removing a syntactic layer.
    let macro_name_range = range_for_text(&buffer, "vec!");
    let before = snapshot_of(&buffer);
    buffer.edit(macro_name_range, "&");
    interpolate(&mut syntax_map, &before, &buffer.snapshot);
    syntax_map.reparse(language.clone(), &buffer.snapshot);

    assert_layers_for_range(
        &syntax_map,
        &buffer,
        Point { row: 2, column: 14 }..Point { row: 2, column: 16 },
        &[
            "...(function_item ...",
            "...(tuple_expression (call_expression ... arguments: (arguments (reference_expression value: (array_expression...",
        ],
    );

    // Put the vec! macro back, adding back the syntactic layer.
    let before = snapshot_of(&buffer);
    buffer.undo();
    interpolate(&mut syntax_map, &before, &buffer.snapshot);
    syntax_map.reparse(language.clone(), &buffer.snapshot);

    assert_layers_for_range(
        &syntax_map,
        &buffer,
        Point { row: 2, column: 14 }..Point { row: 2, column: 16 },
        &[
            "...(function_item ...",
            "...(tuple_expression (call_expression ... arguments: (arguments (macro_invocation...",
            "...(array_expression (struct_expression ...",
        ],
    );
}

#[test]
fn test_syntax_map_edits() {
    let language = Arc::new(rust_lang());
    let registry = registry_with(&language);
    let mut syntax_map = SyntaxMap::new();
    syntax_map.set_language_registry(registry.clone());

    let mut buffer = Buffer::new("");
    syntax_map.reparse(language.clone(), &buffer.snapshot);
    let before = snapshot_of(&buffer);

    edit_buffer_n(
        &mut buffer,
        &[
            "«fn a() { dbg }»",
            "fn a() { dbg«!» }",
            "fn a() { dbg!«()» }",
            "fn a() { dbg!(«b») }",
            "fn a() { dbg!(b«.») }",
            "fn a() { dbg!(b.«c») }",
            "fn a() { dbg!(b.c«()») }",
            "fn a() { dbg!(b.c(«vec»)) }",
            "fn a() { dbg!(b.c(vec«!»)) }",
            "fn a() { dbg!(b.c(vec!«[]»)) }",
            "fn a() { dbg!(b.c(vec![«d»])) }",
            "fn a() { dbg!(b.c(vec![d«.»])) }",
            "fn a() { dbg!(b.c(vec![d.«e»])) }",
        ],
    );

    interpolate(&mut syntax_map, &before, &buffer.snapshot);
    syntax_map.reparse(language.clone(), &buffer.snapshot);

    assert_node_ranges(
        &syntax_map,
        &buffer,
        "(field_identifier) @_",
        "fn a() { dbg!(b.«c»(vec![d.«e»])) }",
    );
}

fn new_map(registry: &Arc<LanguageRegistry>) -> SyntaxMap {
    let mut syntax_map = SyntaxMap::new();
    syntax_map.set_language_registry(registry.clone());
    syntax_map
}

fn extents(syntax_map: &SyntaxMap, buffer: &Buffer) -> Vec<(usize, usize, usize)> {
    let snapshot = syntax_map.snapshot();
    (0..snapshot.layer_count()).map(|i| snapshot.layer_extent(i, &buffer.snapshot)).collect()
}

fn triples(syntax_map: &SyntaxMap, buffer: &Buffer) -> Vec<(usize, usize, String)> {
    let extents = extents(syntax_map, buffer);
    let layers = syntax_map.layers(&buffer.snapshot);
    assert_eq!(extents.len(), layers.len());
    extents
        .iter()
        .zip(layers.iter())
        .map(|((depth, _, end), (_, tree, (start, _)))| {
            (*depth, *end - *start, format!("{}@{}", tree.root_node().to_sexp(), start))
        })
        .collect()
}

#[test]
fn two_macros_give_two_disjoint_layers_at_depth_one() {
    let language = Arc::new(rust_lang());
    let registry = registry_with(&language);
    let buffer = Buffer::new("m1!(x.y); m2!(p.q);");
    let mut syntax_map = new_map(&registry);
    syntax_map.reparse(language.clone(), &buffer.snapshot);

    assert_eq!(extents(&syntax_map, &buffer), vec![(0, 0, 19), (1, 3, 8), (1, 13, 18)]);
    assert_eq!(&buffer.text()[3..8], "(x.y)");
    assert_eq!(&buffer.text()[13..18], "(p.q)");
    let layers = syntax_map.layers(&buffer.snapshot);
    assert_eq!(layers[1].2, (3, Point { row: 0, column: 3 }));
    assert_eq!(layers[2].2, (13, Point { row: 0, column: 13 }));
    assert!(layers[1].1.root_node().to_sexp().contains("field_expression"));
    assert!(layers[2].1.root_node().to_sexp().contains("field_expression"));
}

#[test]
fn macro_in_macro_gives_a_chain_of_layers() {
    let language = Arc::new(rust_lang());
    let registry = registry_with(&language);
    let buffer = Buffer::new("outer!(inner!(z.w));");
    let mut syntax_map = new_map(&registry);
    syntax_map.reparse(language.clone(), &buffer.snapshot);

    let extents = extents(&syntax_map, &buffer);
    assert_eq!(extents, vec![(0, 0, 20), (1, 6, 19), (2, 13, 18)]);
    for pair in extents.windows(2) {
        assert_eq!(pair[0].0 + 1, pair[1].0);
        assert!(pair[0].1 <= pair[1].1 && pair[1].2 <= pair[0].2);
    }
}

#[test]
fn every_deeper_layer_of_the_sample_lies_within_one_of_the_depth_above() {
    let language = Arc::new(rust_lang());
    let registry = registry_with(&language);
    let buffer = Buffer::new(SAMPLE);
    let mut syntax_map = new_map(&registry);
    syntax_map.reparse(language.clone(), &buffer.snapshot);

    let extents = extents(&syntax_map, &buffer);
    assert_eq!(
        extents,
        vec![(0, 0, 109), (1, 23, 72), (1, 86, 105), (2, 39, 45), (2, 60, 65)]
    );
    for (depth, start, end) in &extents {
        if *depth > 0 {
            assert!(extents.iter().any(|(d, s, e)| *d + 1 == *depth && s <= start && end <= e));
        }
    }
    for (i, a) in extents.iter().enumerate() {
        for b in &extents[i + 1..] {
            if a.0 == b.0 {
                assert!(a.2 <= b.1 || b.2 <= a.1);
            }
        }
    }
}

#[test]
fn typing_then_reparsing_gives_the_layers_of_a_fresh_parse() {
    let language = Arc::new(rust_lang());
    let registry = registry_with(&language);
    let mut syntax_map = new_map(&registry);

    let mut buffer = Buffer::new("");
    syntax_map.reparse(language.clone(), &buffer.snapshot);
    let before = snapshot_of(&buffer);
    buffer.edit(0..0, "fn a() { dbg!(b.c(vec![d.e])) }");
    interpolate(&mut syntax_map, &before, &buffer.snapshot);
    syntax_map.reparse(language.clone(), &buffer.snapshot);

    let mut fresh = new_map(&registry);
    fresh.reparse(language.clone(), &buffer.snapshot);

    assert_eq!(extents(&syntax_map, &buffer), vec![(0, 0, 31), (1, 13, 29), (2, 22, 27)]);
    assert_eq!(triples(&syntax_map, &buffer), triples(&fresh, &buffer));
}

#[test]
fn interpolation_keeps_the_number_of_layers_and_moves_their_ranges() {
    let language = Arc::new(rust_lang());
    let registry = registry_with(&language);
    let mut buffer = Buffer::new(SAMPLE);
    let mut syntax_map = new_map(&registry);
    syntax_map.reparse(language.clone(), &buffer.snapshot);
    assert_eq!(syntax_map.version(), 0);

    let macro_name_range = range_for_text(&buffer, "vec!");
    assert_eq!(macro_name_range, 35..39);
    let before = snapshot_of(&buffer);
    buffer.edit(macro_name_range, "&");
    interpolate(&mut syntax_map, &before, &buffer.snapshot);

    assert_eq!(syntax_map.version(), 1);
    assert_eq!(
        extents(&syntax_map, &buffer),
        vec![(0, 0, 106), (1, 23, 69), (1, 83, 102), (2, 36, 42), (2, 57, 62)]
    );
}

#[test]
fn interpolation_without_edits_changes_nothing() {
    let language = Arc::new(rust_lang());
    let registry = registry_with(&language);
    let buffer = Buffer::new(SAMPLE);
    let mut syntax_map = new_map(&registry);
    syntax_map.reparse(language.clone(), &buffer.snapshot);
    let before = triples(&syntax_map, &buffer);

    syntax_map.interpolate(&Vec::new(), &buffer.snapshot);

    assert_eq!(triples(&syntax_map, &buffer), before);
}

#[test]
fn a_reparse_that_finds_nothing_changed_keeps_only_the_depth_it_reached() {
    let language = Arc::new(rust_lang());
    let registry = registry_with(&language);
    let buffer = Buffer::new(SAMPLE);
    let mut syntax_map = new_map(&registry);
    syntax_map.reparse(language.clone(), &buffer.snapshot);
    assert_eq!(syntax_map.snapshot().layer_count(), 5);

    syntax_map.reparse(language.clone(), &buffer.snapshot);

    assert_eq!(extents(&syntax_map, &buffer), vec![(0, 0, 109)]);
}

#[test]
fn without_a_registry_only_the_root_is_parsed() {
    let language = Arc::new(rust_lang());
    let buffer = Buffer::new(SAMPLE);
    let mut syntax_map = SyntaxMap::new();
    syntax_map.reparse(language.clone(), &buffer.snapshot);

    assert_eq!(extents(&syntax_map, &buffer), vec![(0, 0, 109)]);
    let layers = syntax_map.layers(&buffer.snapshot);
    assert!(layers[0].1.root_node().to_sexp().starts_with("(source_file (function_item"));
}

#[test]
fn a_language_without_grammar_gives_no_layer() {
    let language = Arc::new(LanguageDef { name: "plain".to_string(), grammar: None });
    let buffer = Buffer::new(SAMPLE);
    let mut syntax_map = SyntaxMap::new();
    syntax_map.reparse(language.clone(), &buffer.snapshot);

    assert_eq!(syntax_map.snapshot().layer_count(), 0);
    assert!(syntax_map.layers(&buffer.snapshot).is_empty());
    assert_eq!(syntax_map.version(), 0);
}

#[test]
fn an_injection_of_an_unknown_language_is_skipped() {
    let language = Arc::new(rust_lang());
    let registry = Arc::new(LanguageRegistry::new());
    let buffer = Buffer::new("m1!(x.y); m2!(p.q);");
    let mut syntax_map = new_map(&registry);
    syntax_map.reparse(language.clone(), &buffer.snapshot);

    assert_eq!(extents(&syntax_map, &buffer), vec![(0, 0, 19)]);
}

#[test]
fn the_same_query_gives_the_same_answer() {
    let language = Arc::new(rust_lang());
    let registry = registry_with(&language);
    let buffer = Buffer::new(SAMPLE);
    let mut syntax_map = new_map(&registry);
    syntax_map.reparse(language.clone(), &buffer.snapshot);

    let range = buffer.offset(Point { row: 2, column: 14 })..buffer.offset(Point { row: 2, column: 16 });
    let first = syntax_map.layers_for_range(range.clone(), &buffer.snapshot);
    let second = syntax_map.layers_for_range(range.clone(), &buffer.snapshot);
    assert_eq!(first.len(), 3);
    assert_eq!(second.len(), 3);
    for (a, b) in first.iter().zip(second.iter()) {
        assert!(std::ptr::eq(a.1, b.1));
        assert_eq!(a.2, b.2);
    }
    assert_eq!(first[0].2, (0, Point { row: 0, column: 0 }));
    assert_eq!(first[1].2, (23, Point { row: 1, column: 14 }));
    assert_eq!(first[2].2, (39, Point { row: 2, column: 14 }));
}

#[test]
fn a_range_query_takes_layers_that_only_touch_the_range() {
    let language = Arc::new(rust_lang());
    let registry = registry_with(&language);
    let buffer = Buffer::new("m1!(x.y); m2!(p.q);");
    let mut syntax_map = new_map(&registry);
    syntax_map.reparse(language.clone(), &buffer.snapshot);

    let starts = |range: Range<usize>| {
        syntax_map
            .layers_for_range(range, &buffer.snapshot)
            .iter()
            .map(|(_, _, (start, _))| *start)
            .collect::<Vec<_>>()
    };
    assert_eq!(starts(0..1), vec![0]);
    assert_eq!(starts(8..8), vec![0, 3]);
    assert_eq!(starts(9..12), vec![0]);
    assert_eq!(starts(8..13), vec![0, 3, 13]);
    assert_eq!(starts(0..19), vec![0, 3, 13]);
}

#[test]
fn a_snapshot_is_not_touched_by_later_changes_of_the_map() {
    let language = Arc::new(rust_lang());
    let registry = registry_with(&language);
    let buffer = Buffer::new("m1!(x.y); m2!(p.q);");
    let mut syntax_map = new_map(&registry);
    syntax_map.reparse(language.clone(), &buffer.snapshot);
    let snapshot = syntax_map.snapshot();

    let empty = Buffer::new("");
    let mut other = SyntaxMap::default();
    other.reparse(language.clone(), &empty.snapshot);
    syntax_map.reparse(language.clone(), &buffer.snapshot);

    assert_eq!(snapshot.layer_count(), 3);
    assert_eq!(snapshot.layers(&buffer.snapshot).len(), 3);
    assert_eq!(syntax_map.snapshot().layer_count(), 1);
    assert_eq!(other.snapshot().layer_count(), 1);
}

#[test]
fn the_layers_of_a_snapshot_can_be_looked_at_one_by_one() {
    let language = Arc::new(rust_lang());
    let registry = registry_with(&language);
    let buffer = Buffer::new("outer!(inner!(z.w));");
    let mut syntax_map = new_map(&registry);
    syntax_map.reparse(language.clone(), &buffer.snapshot);
    let snapshot = syntax_map.snapshot();

    assert_eq!(snapshot.layer_count(), 3);
    for index in 0..3 {
        let layer = snapshot.layer(index);
        assert_eq!(layer.depth, index);
        assert!(Arc::ptr_eq(&layer.language, &language));
        assert_eq!(
            snapshot.layer_extent(index, &buffer.snapshot),
            (
                layer.depth,
                buffer.snapshot.to_offset(&layer.range.start),
                buffer.snapshot.to_offset(&layer.range.end)
            )
        );
    }
    assert_eq!(snapshot.layer(0).range, syntax_map::position::AnchorRange::all());
    assert_eq!(snapshot.layer(2).range.start.offset, 13);
    assert_eq!(snapshot.layer(2).range.end.offset, 18);
    assert_eq!(snapshot.layer(2).tree.root_node().byte_range(), 0..5);
}
