use markxiv::tex_main::{is_supplementary_name, is_tex_file, select_main_tex};

fn pair(p: &str, c: &str) -> (String, String) {
    (String::from(p), String::from(c))
}

#[test]
fn picks_single_tex() {
    let files = vec![pair("main.tex", "\\documentclass{article}")];
    let pick = select_main_tex(&files).unwrap();
    assert_eq!(pick, "main.tex");
}

#[test]
fn picks_with_documentclass_over_supplement() {
    let files = vec![
        pair("supp.tex", "some appendix"),
        pair(
            "paper.tex",
            "% preamble\n\\documentclass{article}\n\\begin{document}",
        ),
    ];
    let pick = select_main_tex(&files).unwrap();
    assert_eq!(pick, "paper.tex");
}

#[test]
fn avoids_supplementary_names() {
    let files = vec![
        pair("appendix.tex", "\\documentclass{article}"),
        pair("main.tex", "\\documentclass{article}"),
    ];
    let pick = select_main_tex(&files).unwrap();
    assert_eq!(pick, "main.tex");
}

#[test]
fn returns_none_when_no_tex() {
    let files = vec![pair("readme.md", "hello")];
    assert!(select_main_tex(&files).is_none());
}

#[test]
fn empty_list_has_no_main() {
    let files: Vec<(String, String)> = Vec::new();
    assert!(select_main_tex(&files).is_none());
}

#[test]
fn longer_content_wins_a_tie() {
    let files = vec![
        pair("a/x.tex", "\\documentclass{article} short"),
        pair("b/y.tex", "\\documentclass{article} much longer body"),
        pair("c/z.tex", "\\documentclass{article} much longer body"),
    ];
    assert_eq!(select_main_tex(&files).unwrap(), "b/y.tex");
}

#[test]
fn extension_and_stem_follow_the_last_component() {
    assert!(is_tex_file("dir.v2/main.tex"));
    assert!(!is_tex_file("dir.tex/readme"));
    assert!(!is_tex_file(".tex"));
    assert!(is_supplementary_name("src/Supplement.tex"));
    assert!(!is_supplementary_name("appendix/main.tex"));
}
