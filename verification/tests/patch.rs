//! Patches as they are written and as they are applied.
use solomni::patch::{apply_edits, parse, Block, Edit, EditFault, Fault};

fn add(path: &str, content: &str) -> Block {
    Block::Add {
        path: path.to_string(),
        content: content.to_string(),
    }
}

fn upd(path: &str, edits: Vec<(&str, &str)>) -> Block {
    Block::Update {
        path: path.to_string(),
        edits: edits
            .into_iter()
            .map(|(s, r)| Edit {
                search: s.to_string(),
                replace: r.to_string(),
            })
            .collect(),
    }
}

#[test]
fn parses_multiple_blocks_with_prose_around() {
    let text = "我先改两处。\n\n*** Update File: D:/w/a.md\n*** SEARCH\n第一行\n*** REPLACE\n改后的第一行\n*** SEARCH\n旧句\n*** REPLACE\n新句\n*** End File\n中间说一句。\n*** Add File: D:/w/b.md\n新文件的\n两行内容\n*** End File\n我改完了。\n";
    let got = parse(text).expect("应能解析");
    assert_eq!(
        got,
        vec![
            upd(
                "D:/w/a.md",
                vec![("第一行", "改后的第一行"), ("旧句", "新句")]
            ),
            add("D:/w/b.md", "新文件的\n两行内容"),
        ],
        "补丁之后的话不会被写进文件"
    );
}

#[test]
fn every_block_must_be_closed_by_end_file() {
    // 少了 End File：不能猜哪里是结尾（后面可能还有话）——如实报错
    assert_eq!(
        parse("*** Add File: /a\n内容\n"),
        Err(Fault::MissingEnd { line: 1 })
    );
    assert_eq!(
        parse("*** Update File: /a\n*** SEARCH\nx\n*** REPLACE\ny\n"),
        Err(Fault::MissingEnd { line: 1 })
    );
    // End File 之后的话一律忽略
    let got = parse("*** Add File: /a\n内容\n*** End File\n以上。\n").expect("解析");
    assert_eq!(got, vec![add("/a", "内容")]);
}

#[test]
fn deleting_a_span_is_an_empty_replace() {
    let got = parse("*** Update File: /a\n*** SEARCH\n删掉这行\n*** REPLACE\n*** End File\n")
        .expect("空 REPLACE = 删除");
    assert_eq!(got, vec![upd("/a", vec![("删掉这行", "")])]);
}

#[test]
fn marker_names_ignore_case() {
    let got = parse("*** update file: /a\n*** search\nx\n*** replace\ny\n*** end file\n")
        .expect("大小写不敏感");
    assert_eq!(got, vec![upd("/a", vec![("x", "y")])]);
    // 没有块时的 End File 是空话：忽略，不浪费一轮
    let got2 = parse("*** End File\n*** Add File: /a\n内容\n*** End File\n")
        .expect("先来一个空 End 也能解析");
    assert_eq!(got2, vec![add("/a", "内容")]);
}

#[test]
fn faults_are_specific_facts() {
    assert_eq!(parse("这里没有标记"), Err(Fault::NoBlocks));
    assert_eq!(parse(""), Err(Fault::NoBlocks));
    assert_eq!(
        parse("*** Update File:\n*** SEARCH\nx\n*** REPLACE\ny\n*** End File\n"),
        Err(Fault::MissingPath {
            line: 1,
            marker: "Update File".to_string()
        })
    );
    assert_eq!(
        parse("*** Add File: /a\n*** End File\n"),
        Err(Fault::EmptyAdd { line: 1 })
    );
    assert_eq!(
        parse("*** Update File: /a\n*** End File\n"),
        Err(Fault::EmptyUpdate { line: 1 })
    );
    assert_eq!(
        parse("*** Update File: /a\n*** SEARCH\n\n*** REPLACE\ny\n*** End File\n"),
        Err(Fault::EmptySearch { line: 2 })
    );
    assert_eq!(
        parse("*** Update File: /a\n*** SEARCH\nx\n*** End File\n"),
        Err(Fault::SearchWithoutReplace { line: 2 })
    );
    assert_eq!(
        parse("*** Update File: /a\n*** REPLACE\ny\n*** End File\n"),
        Err(Fault::ReplaceWithoutSearch { line: 2 })
    );
    assert_eq!(
        parse("*** Add File: /a\n内容\n*** Fix File: /a\n*** End File\n"),
        Err(Fault::MissingEnd { line: 1 })
    );
    assert_eq!(
        parse("*** Fix File: /a\n*** End File\n"),
        Err(Fault::UnknownMarker {
            line: 1,
            text: "Fix File".to_string()
        })
    );
}

#[test]
fn searches_are_matched_by_whole_lines_and_applied_in_order() {
    let current = "一\n二\n三\n";
    let out = apply_edits(
        current,
        &[
            Edit {
                search: "二".to_string(),
                replace: "二改".to_string(),
            },
            Edit {
                search: "三".to_string(),
                replace: "三改".to_string(),
            },
        ],
    )
    .expect("两处都能改");
    assert_eq!(out, "一\n二改\n三改\n", "末尾换行保持原样");
    let out2 = apply_edits(
        "a\n",
        &[
            Edit {
                search: "a".to_string(),
                replace: "b".to_string(),
            },
            Edit {
                search: "b".to_string(),
                replace: "c".to_string(),
            },
        ],
    )
    .expect("顺序应用");
    assert_eq!(out2, "c\n");
}

#[test]
fn failures_name_the_edit_and_the_fact() {
    assert_eq!(
        apply_edits(
            "一\n二\n",
            &[Edit {
                search: "没有这行".to_string(),
                replace: "x".to_string()
            }]
        ),
        Err((1, EditFault::NotFound { total: 2 }))
    );
    assert_eq!(
        apply_edits(
            "dup\n中\ndup\n",
            &[Edit {
                search: "dup".to_string(),
                replace: "x".to_string()
            }]
        ),
        Err((1, EditFault::Multiple { lines: vec![1, 3] }))
    );
    match apply_edits(
        "第一段\n    缩进过的句子\n",
        &[Edit {
            search: "缩进过的句子".to_string(),
            replace: "x".to_string(),
        }],
    ) {
        Err((1, EditFault::NearMiss { line, actual })) => {
            assert_eq!(line, 2);
            assert_eq!(actual, "    缩进过的句子");
        }
        other => panic!("应报只差空白：{:?}", other),
    }
    assert_eq!(
        apply_edits(
            "a\n",
            &[
                Edit {
                    search: "a".to_string(),
                    replace: "b".to_string()
                },
                Edit {
                    search: "nope".to_string(),
                    replace: "x".to_string()
                },
            ]
        ),
        Err((2, EditFault::NotFound { total: 1 }))
    );
}

#[test]
fn line_endings_and_missing_final_newline_are_preserved() {
    let out = apply_edits(
        "一\r\n二\r\n",
        &[Edit {
            search: "二".to_string(),
            replace: "二改".to_string(),
        }],
    )
    .expect("CRLF");
    assert_eq!(out, "一\r\n二改\r\n");
    let out2 = apply_edits(
        "只有一行",
        &[Edit {
            search: "只有一行".to_string(),
            replace: "改了".to_string(),
        }],
    )
    .expect("无末尾换行");
    assert_eq!(out2, "改了");
    let out3 = apply_edits(
        "留\n删\n",
        &[Edit {
            search: "删".to_string(),
            replace: String::new(),
        }],
    )
    .expect("删除");
    assert_eq!(out3, "留\n");
}

#[test]
fn a_multiline_search_must_match_contiguously() {
    let current = "一\n二\n三\n";
    let out = apply_edits(
        current,
        &[Edit {
            search: "一\n二".to_string(),
            replace: "合并".to_string(),
        }],
    )
    .expect("多行 SEARCH");
    assert_eq!(out, "合并\n三\n");
    assert!(apply_edits(
        current,
        &[Edit {
            search: "二\n一".to_string(),
            replace: "x".to_string()
        }]
    )
    .is_err());
}

#[test]
fn only_five_names_are_markers() {
    for short in ["Add", "Update", "End"] {
        assert_eq!(
            parse(&format!("*** {}: /a\nx\n*** End File\n", short)),
            Err(Fault::UnknownMarker {
                line: 1,
                text: short.to_string()
            })
        );
    }
}
