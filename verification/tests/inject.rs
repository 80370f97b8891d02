use selva::inject::{
    prepend_uniforms, ENTRY_DECLARATION, MAIN_IMAGE, OUTPUT_COLOR, SHADERTOY_MAIN, UNIFORM_DECLS,
    VERTEX_SHADER,
};

const DECLS_TEXT: &str = r#"
uniform vec3 iResolution;
uniform float iGlobalTime;
uniform float iTime;
uniform int iFrame;
uniform float iLinearize;
uniform vec2 iTileResolution;
uniform vec2 iTileIndex;
"#;

const ENTRY_TEXT: &str = r#"
out vec4 _selva_color;

void main() {
    mainImage(_selva_color, gl_FragCoord.xy  + iTileResolution.xy * iTileIndex);
    bvec4 cutoff = lessThan(_selva_color, vec4(0.04045));
    vec4 higher = pow((_selva_color + vec4(0.055))/vec4(1.055), vec4(2.4));
    vec4 lower = _selva_color/vec4(12.92);

    vec4 iLinearized_color = mix(higher, lower, cutoff);
    _selva_color = _selva_color * (1.0 - iLinearize)
                 + iLinearize * iLinearized_color;
}
"#;

const QUAD_TEXT: &str = r#"
#version 150

in vec2 vpos;

void main() {
    gl_Position = vec4(vpos, 0.0, 0.0);
}
"#;

const PLAIN: &str = "#version 150\nout vec4 color;\nvoid main() { color = vec4(1.0); }\n";

const SHADERTOY: &str =
    "#version 150\nvoid mainImage(out vec4 c, in vec2 p) {\n    c = vec4(p, 0.0, 1.0);\n}";

/// The same text, put together by the standard library.
fn joined(src: &str) -> String {
    let mut lines = src.lines();
    let version = lines.next().unwrap();
    let mut parts = vec![version, DECLS_TEXT];
    parts.extend(lines);
    if src.contains("void mainImage(") {
        parts.push(ENTRY_TEXT);
    }
    parts.join("\n")
}

#[test]
fn fixed_texts_are_as_written() {
    assert_eq!(UNIFORM_DECLS, DECLS_TEXT);
    assert_eq!(SHADERTOY_MAIN, ENTRY_TEXT);
    assert_eq!(VERTEX_SHADER, QUAD_TEXT);
    assert_eq!(MAIN_IMAGE, "void mainImage(");
    assert_eq!(OUTPUT_COLOR, "_selva_color");
    assert_eq!(ENTRY_DECLARATION, "out vec4 _selva_color;");
    assert_eq!(ENTRY_TEXT.lines().nth(1), Some(ENTRY_DECLARATION));
}

#[test]
fn uniforms_are_declared_by_name_and_type() {
    for declaration in [
        "uniform vec3 iResolution;",
        "uniform float iGlobalTime;",
        "uniform float iTime;",
        "uniform int iFrame;",
        "uniform float iLinearize;",
        "uniform vec2 iTileResolution;",
        "uniform vec2 iTileIndex;",
    ] {
        assert!(UNIFORM_DECLS.lines().any(|line| line == declaration));
    }
}

#[test]
fn plain_shader_gets_declarations_only() {
    let expected = format!(
        "#version 150\n{}\nout vec4 color;\nvoid main() {{ color = vec4(1.0); }}",
        DECLS_TEXT
    );
    assert_eq!(prepend_uniforms(PLAIN), expected);
}

#[test]
fn shadertoy_shader_gets_entry_point() {
    let expected = format!(
        "#version 150\n{}\nvoid mainImage(out vec4 c, in vec2 p) {{\n    c = vec4(p, 0.0, 1.0);\n}}\n{}",
        DECLS_TEXT, ENTRY_TEXT
    );
    assert_eq!(prepend_uniforms(SHADERTOY), expected);
}

#[test]
fn version_line_alone_gets_declarations() {
    assert_eq!(prepend_uniforms("#version 330"), format!("#version 330\n{}", DECLS_TEXT));
}

#[test]
fn first_line_stays_first() {
    for src in [PLAIN, SHADERTOY, "#version 110\n", "a\r\nb\r\nc"] {
        let out = prepend_uniforms(src);
        assert_eq!(out.lines().next(), src.lines().next());
    }
}

#[test]
fn other_lines_follow_in_order() {
    for src in [PLAIN, SHADERTOY, "#version 110\n\n\nx\n", "a\r\nb\r\nc"] {
        let out = prepend_uniforms(src);
        let out_lines: Vec<&str> = out.lines().collect();
        let src_lines: Vec<&str> = src.lines().collect();
        let after_declarations = 1 + 1 + 7 + 1;
        for (i, line) in src_lines.iter().enumerate().skip(1) {
            assert_eq!(out_lines[after_declarations + i - 1], *line);
        }
    }
}

#[test]
fn line_endings_become_line_feeds() {
    assert_eq!(
        prepend_uniforms("#version 150\r\nfloat x;\r\n"),
        format!("#version 150\n{}\nfloat x;", DECLS_TEXT)
    );
}

#[test]
fn entry_point_needs_the_exact_signature() {
    assert!(!prepend_uniforms("#version 150\nvoid  mainImage(out vec4 c) {}").contains(ENTRY_TEXT));
    assert!(!prepend_uniforms("#version 150\nmainImage(c, p);").contains(ENTRY_TEXT));
    assert!(prepend_uniforms("#version 150\nvoid mainImage(").ends_with(ENTRY_TEXT));
}

#[test]
fn output_is_that_of_the_standard_library() {
    for src in [
        PLAIN,
        SHADERTOY,
        "#version 150",
        "\n",
        "\nvoid mainImage(",
        "a\r\nb\r\nc",
        "a\r\r\nvoid mainImage(out vec4 c, in vec2 p)\r\n{\r\n}\r\n",
        "#version 150\n\n\n",
        "x\r",
    ] {
        assert_eq!(prepend_uniforms(src), joined(src), "source {:?}", src);
    }
}

#[test]
fn same_source_gives_same_output() {
    assert_eq!(prepend_uniforms(SHADERTOY), prepend_uniforms(SHADERTOY));
}

#[test]
fn second_run_adds_no_entry_point_to_plain_shader() {
    let once = prepend_uniforms(PLAIN);
    let twice = prepend_uniforms(&once);
    assert!(!once.contains(ENTRY_TEXT));
    assert!(!twice.contains(ENTRY_TEXT));
    assert!(!twice.contains("void mainImage("));
}

#[test]
fn second_run_does_not_add_the_entry_point_again() {
    let once = prepend_uniforms(SHADERTOY);
    let twice = prepend_uniforms(&once);
    assert_eq!(once.matches("out vec4 _selva_color;").count(), 1);
    assert_eq!(twice.matches("out vec4 _selva_color;").count(), 1);
    assert_eq!(once.matches("void main() {").count(), 1);
    assert_eq!(twice.matches("void main() {").count(), 1);
    assert_eq!(twice.matches("    mainImage(_selva_color,").count(), 1);
}

#[test]
fn later_runs_do_not_add_the_entry_point_either() {
    let mut text = prepend_uniforms(SHADERTOY);
    for _ in 0..4 {
        text = prepend_uniforms(&text);
        assert_eq!(text.matches("out vec4 _selva_color;").count(), 1);
        assert_eq!(text.matches("void main() {").count(), 1);
    }
}

#[test]
fn second_run_keeps_what_the_first_gave_and_adds_declarations() {
    let once = prepend_uniforms(SHADERTOY);
    let twice = prepend_uniforms(&once);
    let first_lines: Vec<&str> = once.lines().collect();
    let mut expected = vec![first_lines[0], DECLS_TEXT];
    expected.extend(&first_lines[1..]);
    assert_eq!(twice, expected.join("\n"));
}

#[test]
fn second_run_finds_the_definition_that_the_first_run_found() {
    for src in [PLAIN, SHADERTOY, "#version 150", "v\nvoid mainImage("] {
        let once = prepend_uniforms(src);
        assert_eq!(once.contains("void mainImage("), src.contains("void mainImage("));
        let twice = prepend_uniforms(&once);
        assert_eq!(twice.contains("void mainImage("), src.contains("void mainImage("));
    }
}

#[test]
fn every_source_with_main_image_and_no_entry_point_ends_with_it() {
    for src in [
        SHADERTOY,
        "v\nvoid mainImage(",
        "void mainImage(",
        "#version 150\nout vec4 _selva_color;\nvoid mainImage(out vec4 c, in vec2 p) {}",
        "#version 150\r\nvoid mainImage(out vec4 c, in vec2 p)\r\n{\r\n}\r\n",
        "#version 150\n// writes _selva_color\nvoid mainImage(out vec4 c, in vec2 p) {}",
    ] {
        let out = prepend_uniforms(src);
        assert!(out.ends_with(ENTRY_TEXT), "source {:?}", src);
        assert_eq!(out, joined(src), "source {:?}", src);
    }
}

#[test]
fn source_with_the_declaring_line_alone_still_gets_the_entry_point() {
    let src = "#version 150\nout vec4 _selva_color;\nvoid mainImage(out vec4 c, in vec2 p) {}";
    let expected = format!(
        "#version 150\n{}\nout vec4 _selva_color;\nvoid mainImage(out vec4 c, in vec2 p) {{}}\n{}",
        DECLS_TEXT, ENTRY_TEXT
    );
    assert_eq!(prepend_uniforms(src), expected);
}

#[test]
fn source_that_holds_the_whole_entry_point_gets_no_other() {
    let src = format!("{}{}", SHADERTOY, ENTRY_TEXT);
    let out = prepend_uniforms(&src);
    assert_eq!(out.matches("void main() {").count(), 1);
    assert_eq!(out.matches("out vec4 _selva_color;").count(), 1);
    assert!(out.contains(ENTRY_TEXT.trim_end_matches('\n')));
    let without_last_line_feed = format!("{}{}", SHADERTOY, ENTRY_TEXT.trim_end_matches('\n'));
    let out = prepend_uniforms(&without_last_line_feed);
    assert_eq!(out.matches("void main() {").count(), 1);
    assert!(out.ends_with(ENTRY_TEXT.trim_end_matches('\n')));
}

#[test]
fn entry_point_with_other_line_endings_is_not_the_entry_point() {
    let src = format!("{}{}", SHADERTOY, ENTRY_TEXT.replace('\n', "\r\n"));
    let out = prepend_uniforms(&src);
    assert!(out.ends_with(ENTRY_TEXT));
    assert_eq!(out, joined(&src));
}

#[test]
fn source_that_only_names_the_colour_still_gets_the_entry_point() {
    let src = "#version 150\n// writes _selva_color\nvoid mainImage(out vec4 c, in vec2 p) {}";
    assert!(prepend_uniforms(src).ends_with(ENTRY_TEXT));
}

#[test]
fn entry_point_text_in_the_source_stays_where_it_is() {
    let src = format!("#version 150{}", ENTRY_TEXT);
    assert!(!src.contains("void mainImage("));
    let out = prepend_uniforms(&src);
    assert_eq!(out, joined(&src));
    assert_eq!(out.matches("void main() {").count(), 1);
    assert!(out.contains(ENTRY_TEXT.trim_end_matches('\n')));
}

#[test]
fn carriage_return_inside_a_line_is_kept() {
    let out = prepend_uniforms("a\r\r\nb\rc\r\nd\r");
    assert_eq!(out, format!("a\r\n{}\nb\rc\nd\r", DECLS_TEXT));
}
