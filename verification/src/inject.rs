//! The uniform injector: the text that is put around a fragment shader
//! before it is compiled.

use crate::text::{
    chars_of, contains, join_lines, lemma_first_line, lemma_join_rejoined, lemma_line_in_text,
    lemma_line_len, lemma_lines_apart, lemma_occurs_in_part, lemma_occurs_within,
    lemma_part_in_join, lemma_pattern_in_line, lemma_rejoined_keeps, line_len, lines, lines_from,
    occurs, occurs_at, one_line, part_start, plain, push_range, rejoined, spans_lines,
    split_lines, string_of, views,
};
use vstd::prelude::*;

verus! {

/// The vertex shader of the full-screen quad.
pub const VERTEX_SHADER: &'static str = "\n#version 150\n\nin vec2 vpos;\n\nvoid main() {\n    gl_Position = vec4(vpos, 0.0, 0.0);\n}\n";

/// The declarations of the uniforms that every shader may read.
pub const UNIFORM_DECLS: &'static str = "\nuniform vec3 iResolution;\nuniform float iGlobalTime;\nuniform float iTime;\nuniform int iFrame;\nuniform float iLinearize;\nuniform vec2 iTileResolution;\nuniform vec2 iTileIndex;\n";

/// The entry point that calls `mainImage` with the coordinate of the
/// fragment on the whole canvas and blends in the linearized colour.
pub const SHADERTOY_MAIN: &'static str = "\nout vec4 _selva_color;\n\nvoid main() {\n    mainImage(_selva_color, gl_FragCoord.xy  + iTileResolution.xy * iTileIndex);\n    bvec4 cutoff = lessThan(_selva_color, vec4(0.04045));\n    vec4 higher = pow((_selva_color + vec4(0.055))/vec4(1.055), vec4(2.4));\n    vec4 lower = _selva_color/vec4(12.92);\n\n    vec4 iLinearized_color = mix(higher, lower, cutoff);\n    _selva_color = _selva_color * (1.0 - iLinearize)\n                 + iLinearize * iLinearized_color;\n}\n";

/// A source that holds this text defines `mainImage`.
pub const MAIN_IMAGE: &'static str = "void mainImage(";

/// The name of the colour that the entry point writes.
pub const OUTPUT_COLOR: &'static str = "_selva_color";

/// The line of the entry point that declares that colour.
pub const ENTRY_DECLARATION: &'static str = "out vec4 _selva_color;";

/// What the contracts need to know of the fixed texts.
proof fn lemma_fixed_texts()
    ensures
        MAIN_IMAGE@.len() == 15,
        MAIN_IMAGE@[14] == '(',
        forall|i: int| 0 <= i < MAIN_IMAGE@.len() ==> MAIN_IMAGE@[i] != '\n' && MAIN_IMAGE@[i] != '\r',
        OUTPUT_COLOR@.len() == 12,
        OUTPUT_COLOR@[0] == '_',
        forall|i: int| 0 <= i < OUTPUT_COLOR@.len() ==> OUTPUT_COLOR@[i] != '\n' && OUTPUT_COLOR@[i] != '\r',
        forall|i: int| 0 <= i < UNIFORM_DECLS@.len() ==> UNIFORM_DECLS@[i] != '(' && UNIFORM_DECLS@[i] != '_',
        occurs_at(SHADERTOY_MAIN@, OUTPUT_COLOR@, 10),
        forall|i: int|
            0 <= i < SHADERTOY_MAIN@.len() && SHADERTOY_MAIN@[i] == 'I' ==> i == 47 || i == 112,
        SHADERTOY_MAIN@[38] != 'v',
        SHADERTOY_MAIN@[103] != 'v',
        MAIN_IMAGE@[0] == 'v',
        MAIN_IMAGE@[9] == 'I',
        SHADERTOY_MAIN@.len() == 461,
        SHADERTOY_MAIN@[0] == '\n',
        SHADERTOY_MAIN@[459] == '}',
        forall|i: int| 0 <= i < SHADERTOY_MAIN@.len() ==> SHADERTOY_MAIN@[i] != '\r',
        ENTRY_DECLARATION@.len() == 22,
        plain(ENTRY_DECLARATION@),
        ENTRY_DECLARATION@[0] == 'o',
        ENTRY_DECLARATION@[1] == 'u',
        occurs_at(ENTRY_DECLARATION@, OUTPUT_COLOR@, 9),
        occurs_at(SHADERTOY_MAIN@, ENTRY_DECLARATION@, 1),
        forall|i: int|
            0 <= i < SHADERTOY_MAIN@.len() - 1 && #[trigger] SHADERTOY_MAIN@[i] == 'o'
                && SHADERTOY_MAIN@[i + 1] == 'u' ==> i == 1,
{
    reveal_strlit("void mainImage(");
    reveal_strlit("_selva_color");
    reveal_strlit("out vec4 _selva_color;");
    reveal_strlit("\nuniform vec3 iResolution;\nuniform float iGlobalTime;\nuniform float iTime;\nuniform int iFrame;\nuniform float iLinearize;\nuniform vec2 iTileResolution;\nuniform vec2 iTileIndex;\n");
    reveal_strlit("\nout vec4 _selva_color;\n\nvoid main() {\n    mainImage(_selva_color, gl_FragCoord.xy  + iTileResolution.xy * iTileIndex);\n    bvec4 cutoff = lessThan(_selva_color, vec4(0.04045));\n    vec4 higher = pow((_selva_color + vec4(0.055))/vec4(1.055), vec4(2.4));\n    vec4 lower = _selva_color/vec4(12.92);\n\n    vec4 iLinearized_color = mix(higher, lower, cutoff);\n    _selva_color = _selva_color * (1.0 - iLinearize)\n                 + iLinearize * iLinearized_color;\n}\n");
    assert(SHADERTOY_MAIN@.subrange(10, 22) =~= OUTPUT_COLOR@);
    assert(ENTRY_DECLARATION@.subrange(9, 21) =~= OUTPUT_COLOR@);
    assert(SHADERTOY_MAIN@.subrange(1, 23) =~= ENTRY_DECLARATION@);
}

/// The source defines `mainImage`.
pub open spec fn defines_main_image(src: Seq<char>) -> bool {
    occurs(src, MAIN_IMAGE@)
}

/// The entry point as it stands in a text of lines: without its last line
/// feed, which ends the last line and is not kept when the lines are split
/// and joined again.
pub open spec fn entry_point() -> Seq<char> {
    SHADERTOY_MAIN@.drop_last()
}

/// The source has its entry point already: it holds the whole of it.
pub open spec fn holds_entry_point(src: Seq<char>) -> bool {
    occurs(src, entry_point())
}

/// The source gets the entry point: it defines `mainImage` and has no
/// entry point yet.
pub open spec fn needs_entry_point(src: Seq<char>) -> bool {
    defines_main_image(src) && !holds_entry_point(src)
}

/// The parts of the augmented source: the first line of the source, the
/// uniform declarations, the other lines of the source, and the entry point
/// where the source needs it.
pub open spec fn injected_parts(src: Seq<char>) -> Seq<Seq<char>> {
    let head = seq![lines(src)[0], UNIFORM_DECLS@];
    let body = lines(src).skip(1);
    if needs_entry_point(src) {
        head + body + seq![SHADERTOY_MAIN@]
    } else {
        head + body
    }
}

/// The augmented source: its parts, joined by line feeds.
pub open spec fn injected(src: Seq<char>) -> Seq<char> {
    join_lines(injected_parts(src))
}

/// Where line `i` of the source stands among the parts of the augmented
/// source: the first line comes first, the others after the declarations.
pub open spec fn part_of_line(i: int) -> int {
    if i == 0 {
        0
    } else {
        i + 1
    }
}

/// What stands in a line of the source stays: a pattern without line feed
/// and carriage return that stands in the source stands in the augmented
/// source.
pub proof fn law_source_kept(src: Seq<char>, pattern: Seq<char>)
    requires
        pattern.len() > 0,
        plain(pattern),
        occurs(src, pattern),
    ensures
        occurs(injected(src), pattern),
{
    let at = choose|at: int| occurs_at(src, pattern, at);
    let i = lemma_pattern_in_line(src, 0, pattern, at);
    let within = choose|within: int| occurs_at(lines(src)[i], pattern, within);
    let parts = injected_parts(src);
    let k = part_of_line(i);
    assert(parts[k] == lines(src)[i]);
    lemma_part_in_join(parts, k);
    lemma_occurs_within(injected(src), parts[k], part_start(parts, k), pattern, within);
}

/// Nothing comes in but the fixed texts: a pattern without line feed that
/// stands in the augmented source stands in the source, in the
/// declarations, or in the entry point that was added.
pub proof fn law_nothing_else_added(src: Seq<char>, pattern: Seq<char>)
    requires
        src.len() > 0,
        pattern.len() > 0,
        one_line(pattern),
        occurs(injected(src), pattern),
    ensures
        occurs(src, pattern) || occurs(UNIFORM_DECLS@, pattern) || (needs_entry_point(src)
            && occurs(SHADERTOY_MAIN@, pattern)),
{
    lemma_first_line(src);
    let at = choose|at: int| occurs_at(injected(src), pattern, at);
    let parts = injected_parts(src);
    let k = lemma_occurs_in_part(parts, pattern, at);
    let within = choose|within: int| occurs_at(parts[k], pattern, within);
    if k == 1 {
        assert(parts[k] == UNIFORM_DECLS@);
    } else if k <= lines(src).len() {
        let i = if k == 0 {
            0
        } else {
            k - 1
        };
        assert(parts[k] == lines(src)[i]);
        let start = lemma_line_in_text(src, 0, i);
        lemma_occurs_within(src, parts[k], start, pattern, within);
    } else {
        assert(needs_entry_point(src));
        assert(parts[k] == SHADERTOY_MAIN@);
    }
}

/// Neither the declarations nor the entry point hold the text by which a
/// definition of `mainImage` is known: the entry point only calls it.
pub proof fn law_fixed_texts_define_nothing()
    ensures
        !defines_main_image(UNIFORM_DECLS@),
        !defines_main_image(SHADERTOY_MAIN@),
{
    lemma_fixed_texts();
    let pattern = MAIN_IMAGE@;
    if defines_main_image(UNIFORM_DECLS@) {
        let at = choose|at: int| occurs_at(UNIFORM_DECLS@, pattern, at);
        assert(UNIFORM_DECLS@.subrange(at, at + 15)[14] == UNIFORM_DECLS@[at + 14]);
    }
    if defines_main_image(SHADERTOY_MAIN@) {
        let at = choose|at: int| occurs_at(SHADERTOY_MAIN@, pattern, at);
        assert(SHADERTOY_MAIN@.subrange(at, at + 15)[9] == SHADERTOY_MAIN@[at + 9]);
        assert(SHADERTOY_MAIN@.subrange(at, at + 15)[0] == SHADERTOY_MAIN@[at]);
    }
}

/// Putting in the uniforms neither brings a definition of `mainImage` into
/// a source nor takes one out.
pub proof fn law_definition_kept(src: Seq<char>)
    requires
        src.len() > 0,
    ensures
        defines_main_image(injected(src)) == defines_main_image(src),
{
    lemma_fixed_texts();
    let pattern = MAIN_IMAGE@;
    if defines_main_image(src) {
        law_source_kept(src, pattern);
    }
    if defines_main_image(injected(src)) && !defines_main_image(src) {
        law_nothing_else_added(src, pattern);
        law_fixed_texts_define_nothing();
    }
}

/// Each line of the source stands in the augmented source as it is, and
/// the lines stand there in their order, one wholly before the next.
pub proof fn law_lines_kept(src: Seq<char>, i: int)
    requires
        src.len() > 0,
        0 <= i < lines(src).len(),
    ensures
        injected_parts(src)[part_of_line(i)] == lines(src)[i],
        occurs_at(
            injected(src),
            lines(src)[i],
            part_start(injected_parts(src), part_of_line(i)),
        ),
        i + 1 < lines(src).len() ==> part_start(injected_parts(src), part_of_line(i))
            + lines(src)[i].len() < part_start(injected_parts(src), part_of_line(i + 1)),
{
    let parts = injected_parts(src);
    let k = part_of_line(i);
    assert(parts[k] == lines(src)[i]);
    lemma_part_in_join(parts, k);
    assert(part_start(parts, k + 1) == part_start(parts, k) + parts[k].len() + 1);
    if i == 0 {
        assert(part_start(parts, 2) == part_start(parts, 1) + parts[1].len() + 1);
    }
}

/// The augmented source begins with the first line of the source, and a
/// line feed follows it. Read as a text of lines, its first line is the
/// first line of the source, unless that line ends with a carriage return.
pub proof fn law_first_line_kept(src: Seq<char>)
    requires
        src.len() > 0,
    ensures
        occurs_at(injected(src), lines(src)[0], 0),
        injected(src)[lines(src)[0].len() as int] == '\n',
        lines(src)[0].len() == 0 || lines(src)[0].last() != '\r' ==> lines(injected(src))[0]
            == lines(src)[0],
{
    lemma_first_line(src);
    let parts = injected_parts(src);
    let first = lines(src)[0];
    let out = injected(src);
    assert(parts[0] == first);
    lemma_part_in_join(parts, 0);
    assert(part_start(parts, 0) == 0);
    assert forall|k: int| 0 <= k < first.len() implies out[k] != '\n' by {
        assert(out.subrange(0, first.len() as int)[k] == out[k]);
    }
    lemma_line_end_found(out, 0, first.len() as int);
    lemma_first_line(out);
    if first.len() == 0 || first.last() != '\r' {
        if first.len() > 0 {
            assert(out.subrange(0, first.len() as int)[first.len() - 1] == out[first.len() - 1]);
        }
    }
}

/// A line ends at the first line feed after its start.
proof fn lemma_line_end_found(text: Seq<char>, from: int, end: int)
    requires
        0 <= from <= end < text.len(),
        forall|k: int| from <= k < end ==> text[k] != '\n',
        text[end] == '\n',
    ensures
        from + line_len(text, from) == end,
    decreases end - from,
{
    if from < end {
        lemma_line_end_found(text, from + 1, end);
    }
}

/// What the contracts need to know of the entry point.
proof fn lemma_entry_point()
    ensures
        spans_lines(entry_point()),
        entry_point().len() == 460,
        occurs_at(SHADERTOY_MAIN@, entry_point(), 0),
        occurs_at(entry_point(), ENTRY_DECLARATION@, 1),
        occurs_at(entry_point(), OUTPUT_COLOR@, 10),
{
    lemma_fixed_texts();
    let whole = SHADERTOY_MAIN@;
    let block = entry_point();
    assert(whole.subrange(0, 460) =~= block);
    assert(block.subrange(1, 23) =~= whole.subrange(1, 23));
    assert(block.subrange(10, 22) =~= whole.subrange(10, 22));
}

/// The uniform declarations do not name the colour of the entry point.
proof fn lemma_declarations_name_no_colour()
    ensures
        !occurs(UNIFORM_DECLS@, OUTPUT_COLOR@),
        !occurs(UNIFORM_DECLS@, ENTRY_DECLARATION@),
{
    lemma_fixed_texts();
    if occurs(UNIFORM_DECLS@, OUTPUT_COLOR@) {
        let within = choose|within: int| occurs_at(UNIFORM_DECLS@, OUTPUT_COLOR@, within);
        assert(UNIFORM_DECLS@.subrange(within, within + 12)[0] == UNIFORM_DECLS@[within]);
    }
    if occurs(UNIFORM_DECLS@, ENTRY_DECLARATION@) {
        let within = choose|within: int| occurs_at(UNIFORM_DECLS@, ENTRY_DECLARATION@, within);
        lemma_occurs_within(UNIFORM_DECLS@, ENTRY_DECLARATION@, within, OUTPUT_COLOR@, 9);
    }
}

/// An entry point that stands in the source stands in what comes out: a
/// pattern that begins with a line feed, does not end with one and holds no
/// carriage return is found again behind the declarations.
pub proof fn law_spanning_text_kept(src: Seq<char>, pattern: Seq<char>)
    requires
        spans_lines(pattern),
        occurs(src, pattern),
    ensures
        occurs(injected(src), pattern),
{
    let at = choose|at: int| occurs_at(src, pattern, at);
    let m = pattern.len() as int;
    assert(src.subrange(at, at + m)[0] == src[at]);
    lemma_line_len(src, 0);
    let end = line_len(src, 0) as int;
    let head = seq![lines(src)[0], UNIFORM_DECLS@];
    let body = lines(src).skip(1);
    assert(body =~= lines_from(src, end + 1));
    lemma_join_rejoined(head, src, end + 1);
    lemma_rejoined_keeps(src, end + 1, pattern, at);
    let behind = rejoined(src, end + 1);
    let within = choose|within: int| occurs_at(behind, pattern, within);
    let base = join_lines(head + body);
    let start = join_lines(head).len() as int;
    assert(base.subrange(start + within, start + within + m) =~= behind.subrange(
        within,
        within + m,
    ));
    assert(occurs_at(base, pattern, start + within));
    if needs_entry_point(src) {
        let parts = injected_parts(src);
        assert(parts.drop_last() =~= head + body);
        assert(injected(src).subrange(start + within, start + within + m) =~= base.subrange(
            start + within,
            start + within + m,
        ));
        assert(occurs_at(injected(src), pattern, start + within));
    }
}

/// Every source that defines `mainImage` has the entry point in what comes
/// out: a source that has none yet gets the fixed text at its end, and a
/// source that holds it keeps it. A source that does not define
/// `mainImage`, and does not name the colour that the entry point writes,
/// gets none: the entry point stands nowhere in what comes out.
pub proof fn law_entry_point(src: Seq<char>)
    requires
        src.len() > 0,
    ensures
        needs_entry_point(src) ==> occurs_at(
            injected(src),
            SHADERTOY_MAIN@,
            injected(src).len() - SHADERTOY_MAIN@.len(),
        ),
        defines_main_image(src) ==> occurs(injected(src), entry_point()),
        !defines_main_image(src) && !occurs(src, OUTPUT_COLOR@) ==> !occurs(
            injected(src),
            entry_point(),
        ) && !occurs(injected(src), SHADERTOY_MAIN@),
{
    lemma_fixed_texts();
    lemma_entry_point();
    let out = injected(src);
    let parts = injected_parts(src);
    if needs_entry_point(src) {
        let k = parts.len() - 1;
        assert(parts[k] == SHADERTOY_MAIN@);
        lemma_part_in_join(parts, k);
        lemma_occurs_within(out, SHADERTOY_MAIN@, part_start(parts, k), entry_point(), 0);
    } else if defines_main_image(src) {
        law_spanning_text_kept(src, entry_point());
    } else if !occurs(src, OUTPUT_COLOR@) {
        if occurs(out, SHADERTOY_MAIN@) {
            let at = choose|at: int| occurs_at(out, SHADERTOY_MAIN@, at);
            lemma_occurs_within(out, SHADERTOY_MAIN@, at, entry_point(), 0);
        }
        if occurs(out, entry_point()) {
            let at = choose|at: int| occurs_at(out, entry_point(), at);
            lemma_occurs_within(out, entry_point(), at, OUTPUT_COLOR@, 10);
            law_nothing_else_added(src, OUTPUT_COLOR@);
            lemma_declarations_name_no_colour();
        }
    }
}

/// What comes out has its entry point or needs none: a second run adds no
/// entry point, whatever the source was.
pub proof fn law_second_run_adds_no_entry_point(src: Seq<char>)
    requires
        src.len() > 0,
    ensures
        !needs_entry_point(injected(src)),
{
    if defines_main_image(src) {
        law_entry_point(src);
    } else {
        law_definition_kept(src);
    }
}

/// `pattern` stands in `text` at `at` and nowhere else.
pub open spec fn occurs_once_at(text: Seq<char>, pattern: Seq<char>, at: int) -> bool {
    &&& occurs_at(text, pattern, at)
    &&& forall|other: int| occurs_at(text, pattern, other) ==> other == at
}

/// `pattern` stands in `text` exactly once.
pub open spec fn occurs_once(text: Seq<char>, pattern: Seq<char>) -> bool {
    exists|at: int| occurs_once_at(text, pattern, at)
}

/// In what comes out of a source that defines `mainImage` and does not
/// name the colour of the entry point, the declaring line of the entry
/// point stands once: in the entry point at the end.
proof fn lemma_first_run_declares_once(src: Seq<char>) -> (at: int)
    requires
        src.len() > 0,
        defines_main_image(src),
        !occurs(src, OUTPUT_COLOR@),
    ensures
        needs_entry_point(src),
        occurs_once_at(injected(src), ENTRY_DECLARATION@, at),
{
    lemma_fixed_texts();
    lemma_entry_point();
    lemma_declarations_name_no_colour();
    lemma_first_line(src);
    let line = ENTRY_DECLARATION@;
    if holds_entry_point(src) {
        let found = choose|found: int| occurs_at(src, entry_point(), found);
        lemma_occurs_within(src, entry_point(), found, OUTPUT_COLOR@, 10);
    }
    let out = injected(src);
    let parts = injected_parts(src);
    let last = parts.len() - 1;
    assert(parts[last] == SHADERTOY_MAIN@);
    lemma_part_in_join(parts, last);
    lemma_occurs_within(out, SHADERTOY_MAIN@, part_start(parts, last), line, 1);
    let at = part_start(parts, last) + 1;
    assert forall|other: int| occurs_at(out, line, other) implies other == at by {
        let k = lemma_occurs_in_part(parts, line, other);
        let within = other - part_start(parts, k);
        if k == 1 {
            assert(parts[k] == UNIFORM_DECLS@);
        } else if k < last {
            let i = if k == 0 {
                0
            } else {
                k - 1
            };
            assert(parts[k] == lines(src)[i]);
            let start = lemma_line_in_text(src, 0, i);
            lemma_occurs_within(src, parts[k], start, line, within);
            lemma_occurs_within(src, line, start + within, OUTPUT_COLOR@, 9);
        } else {
            let found = SHADERTOY_MAIN@.subrange(within, within + 22);
            assert(found[0] == SHADERTOY_MAIN@[within]);
            assert(found[1] == SHADERTOY_MAIN@[within + 1]);
        }
    }
    at
}

/// A second run does not add the entry point again. For every source that
/// defines `mainImage` and does not name the colour of the entry point,
/// the line that declares that colour stands exactly once in what the
/// first run gives, and exactly once in what a second run makes of that.
pub proof fn law_entry_point_stands_once(src: Seq<char>)
    requires
        src.len() > 0,
        defines_main_image(src),
        !occurs(src, OUTPUT_COLOR@),
    ensures
        occurs_once(injected(src), ENTRY_DECLARATION@),
        occurs_once(injected(injected(src)), ENTRY_DECLARATION@),
{
    lemma_fixed_texts();
    lemma_declarations_name_no_colour();
    let line = ENTRY_DECLARATION@;
    let once = injected(src);
    let first = lemma_first_run_declares_once(src);
    assert(occurs_once_at(once, line, first));
    law_second_run_adds_no_entry_point(src);
    lemma_first_line(once);
    let twice = injected(once);
    let parts = injected_parts(once);
    let i = lemma_pattern_in_line(once, 0, line, first);
    let within = choose|within: int| occurs_at(lines(once)[i], line, within);
    let start = lemma_line_in_text(once, 0, i);
    lemma_occurs_within(once, lines(once)[i], start, line, within);
    let k = part_of_line(i);
    assert(parts[k] == lines(once)[i]);
    lemma_part_in_join(parts, k);
    lemma_occurs_within(twice, parts[k], part_start(parts, k), line, within);
    let second = part_start(parts, k) + within;
    assert forall|other: int| occurs_at(twice, line, other) implies other == second by {
        let k2 = lemma_occurs_in_part(parts, line, other);
        let within2 = other - part_start(parts, k2);
        if k2 == 1 {
            assert(parts[k2] == UNIFORM_DECLS@);
        } else {
            let i2 = if k2 == 0 {
                0
            } else {
                k2 - 1
            };
            assert(parts[k2] == lines(once)[i2]);
            let start2 = lemma_line_in_text(once, 0, i2);
            lemma_occurs_within(once, parts[k2], start2, line, within2);
            if i2 < i {
                lemma_lines_apart(once, 0, i2, i);
            } else if i < i2 {
                lemma_lines_apart(once, 0, i, i2);
            }
        }
    }
    assert(occurs_once_at(twice, line, second));
}

/// Puts the uniform declarations after the first line of `src`, which is
/// taken to be the version directive, and the entry point after the last
/// where `src` defines `mainImage` and has no entry point yet.
pub fn prepend_uniforms(src: &str) -> (out: String)
    requires
        src@.len() > 0,
    ensures
        out@ == injected(src@),
{
    let text = chars_of(src);
    let all = split_lines(&text);
    assert(lines(text@).len() == all.len());
    assert forall|k: int| 0 <= k < all.len() implies all[k]@ == #[trigger] lines(text@)[k] by {
        assert(views(all@)[k] == all[k]@);
    }
    let decls = chars_of(UNIFORM_DECLS);
    let mut out: Vec<char> = Vec::new();
    push_range(&mut out, &all[0], 0, all[0].len());
    assert(out@ == all[0]@);
    out.push('\n');
    push_range(&mut out, &decls, 0, decls.len());
    let ghost head = seq![lines(text@)[0], UNIFORM_DECLS@];
    assert(out@ == join_lines(head)) by {
        assert(head.drop_last() == seq![lines(text@)[0]]);
        assert(join_lines(head.drop_last()) == lines(text@)[0]);
        assert(decls@.subrange(0, decls.len() as int) == decls@);
    }
    let mut i: usize = 1;
    while i < all.len()
        invariant
            1 <= i <= all.len(),
            all.len() == lines(text@).len(),
            head.len() == 2,
            forall|k: int| 0 <= k < all.len() ==> all[k]@ == #[trigger] lines(text@)[k],
            out@ == join_lines(head + lines(text@).subrange(1, i as int)),
        decreases all.len() - i,
    {
        let ghost before = head + lines(text@).subrange(1, i as int);
        out.push('\n');
        push_range(&mut out, &all[i], 0, all[i].len());
        i = i + 1;
        proof {
            let after = head + lines(text@).subrange(1, i as int);
            assert(after.drop_last() == before);
            assert(after.last() == all[i - 1]@);
            assert(all[i - 1]@.subrange(0, all[i - 1]@.len() as int) == all[i - 1]@);
        }
    }
    assert(lines(text@).subrange(1, all.len() as int) == lines(text@).skip(1));
    let pattern = chars_of(MAIN_IMAGE);
    let entry = chars_of(SHADERTOY_MAIN);
    let mut block = chars_of(SHADERTOY_MAIN);
    proof {
        lemma_fixed_texts();
    }
    block.pop();
    assert(block@ == entry_point());
    if contains(&text, &pattern) && !contains(&text, &block) {
        let ghost before = head + lines(text@).skip(1);
        out.push('\n');
        push_range(&mut out, &entry, 0, entry.len());
        proof {
            let after = before + seq![SHADERTOY_MAIN@];
            assert(after.drop_last() == before);
            assert(entry@.subrange(0, entry.len() as int) == entry@);
        }
    }
    string_of(&out)
}

} // verus!
