//! What a tool declares of its parameters: checking, defaults and both renderings.
use solomni::json::{int_json, Json};
use solomni::schema::{whole_bound, ArgFault, Param, ParamType, ToolSchema};
use solomni::table::Table;

fn obj(members: Vec<(&str, Json)>) -> Json {
    let mut m: Vec<(String, Json)> = members
        .into_iter()
        .map(|(k, v)| (k.to_string(), v))
        .collect();
    m.sort_by(|a, b| a.0.cmp(&b.0));
    Json::Obj(m)
}

fn text(s: &str) -> Json {
    Json::Str(s.to_string())
}

fn param(ty: ParamType, desc: &str) -> Param {
    Param {
        ty,
        required: false,
        non_empty: false,
        desc: desc.to_string(),
        default: None,
        min: None,
        max: None,
    }
}

fn schema(desc: &str, params: Option<Vec<(&str, Param)>>) -> ToolSchema {
    ToolSchema {
        desc: desc.to_string(),
        params: params.map(|v| {
            let mut t = Table::new();
            for (k, p) in v {
                t.insert(k.to_string(), p);
            }
            t
        }),
        parallel: false,
        capability: String::new(),
    }
}

fn book() -> ToolSchema {
    let mut path = param(ParamType::String, "真实绝对路径");
    path.required = true;
    let mut offset = param(ParamType::Integer, "起始行");
    offset.default = Some(int_json(1));
    offset.min = Some(whole_bound(1));
    let mut limit = param(ParamType::Integer, "最多返回行数");
    limit.max = Some(whole_bound(2000));
    schema(
        "读取文本文件的行区间",
        Some(vec![("path", path), ("offset", offset), ("limit", limit)]),
    )
}

#[test]
fn check_reports_the_fact_not_a_guess() {
    let s = book();
    assert_eq!(
        s.check(&obj(vec![])),
        Err(ArgFault::Missing("path".to_string()))
    );
    assert_eq!(
        s.check(&obj(vec![("path", int_json(1))])),
        Err(ArgFault::WrongType {
            name: "path".to_string(),
            want: "string"
        })
    );
    assert_eq!(
        s.check(&obj(vec![("path", text("p")), ("limit", int_json(2001))])),
        Err(ArgFault::TooBig {
            name: "limit".to_string(),
            max: "2000".to_string()
        })
    );
    assert_eq!(
        s.check(&obj(vec![("path", text("p")), ("offset", int_json(0))])),
        Err(ArgFault::TooSmall {
            name: "offset".to_string(),
            min: "1".to_string()
        })
    );
    assert_eq!(
        s.check(&obj(vec![("path", text("p")), ("nope", int_json(1))])),
        Err(ArgFault::Unknown("nope".to_string()))
    );
    assert!(
        s.check(&obj(vec![("path", text("p"))])).is_ok(),
        "只给必填项就是合法调用"
    );
    let mut keyword = param(ParamType::String, "");
    keyword.required = true;
    keyword.non_empty = true;
    let k = schema("", Some(vec![("keyword", keyword)]));
    assert_eq!(
        k.check(&obj(vec![("keyword", text(""))])),
        Err(ArgFault::Empty("keyword".to_string()))
    );
    assert!(k.check(&obj(vec![("keyword", text("x"))])).is_ok());
    assert!(
        s.check(&obj(vec![("path", text("p")), ("limit", int_json(2000))]))
            .is_ok(),
        "上界含在内"
    );
    assert!(
        s.check(&obj(vec![("path", text("p")), ("offset", Json::Null)]))
            .is_ok(),
        "可选项给 null 等于没给"
    );
}

#[test]
fn defaults_are_applied_without_overwriting() {
    let s = book();
    let mut a = obj(vec![("path", text("p"))]);
    s.apply_defaults(&mut a);
    assert_eq!(a.get("offset"), Some(&int_json(1)));
    let mut b = obj(vec![("path", text("p")), ("offset", int_json(7))]);
    s.apply_defaults(&mut b);
    assert_eq!(b.get("offset"), Some(&int_json(7)), "已有值不动");
}

#[test]
fn renders_both_shapes_from_one_declaration() {
    let s = book();
    let text_ = s.render_for_prompt();
    assert!(text_.contains("读取文本文件的行区间"));
    assert!(
        text_.contains("- path（string，必填）：真实绝对路径"),
        "{}",
        text_
    );
    assert!(
        text_.contains("- offset（integer，缺省 1，不小于 1）：起始行"),
        "{}",
        text_
    );
    assert!(
        text_.contains("- limit（integer，不大于 2000）：最多返回行数"),
        "{}",
        text_
    );

    let js = s.to_json_schema();
    assert_eq!(js.get("type"), Some(&text("object")));
    let props = js.get("properties").unwrap();
    assert_eq!(
        props.get("path").unwrap().get("type"),
        Some(&text("string"))
    );
    assert_eq!(
        props.get("limit").unwrap().get("maximum"),
        Some(&int_json(2000))
    );
    assert_eq!(js.get("required"), Some(&Json::Arr(vec![text("path")])));
    assert_eq!(js.get("additionalProperties"), Some(&Json::Bool(false)));
}

#[test]
fn undeclared_params_means_no_validation() {
    let s = schema("没有声明参数的工具", None);
    assert!(s.check(&obj(vec![])).is_ok(), "没声明参数 = 不校验");
    assert!(
        s.check(&obj(vec![("任意", int_json(1))])).is_ok(),
        "模块工具照旧能收到自由参数"
    );
    let mut a = obj(vec![("任意", int_json(1))]);
    s.apply_defaults(&mut a);
    assert_eq!(a, obj(vec![("任意", int_json(1))]), "不校验也不动参数");
    assert_eq!(s.render_for_prompt(), "没有声明参数的工具");
}

#[test]
fn declared_empty_params_rejects_every_key() {
    let s = schema("", Some(vec![]));
    assert!(s.check(&obj(vec![])).is_ok());
    assert_eq!(
        s.check(&obj(vec![("任意", int_json(1))])),
        Err(ArgFault::Unknown("任意".to_string()))
    );
}

#[test]
fn arguments_that_are_no_object_are_refused() {
    assert_eq!(book().check(&text("p")), Err(ArgFault::NotObject));
}
