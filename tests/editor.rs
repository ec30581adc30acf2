use config_menu::controller::{HelpContext, MenuController};
use config_menu::menu::item_line;
use config_menu::schema::{
    format_field_value, parse_and_set, ConfigError, ConfigField, ConfigNode, FieldMetadata,
    FieldType, FieldValue, Scalar,
};
use config_menu::text::strip_debug_quotes;

fn meta(name: &str, field_type: FieldType) -> FieldMetadata {
    FieldMetadata {
        name: name.to_string(),
        is_nested: field_type == FieldType::Nested,
        is_option: false,
        is_vec: false,
        field_type,
    }
}

fn leaf(name: &str, field_type: FieldType, s: Scalar) -> ConfigField {
    ConfigField { meta: meta(name, field_type), value: FieldValue::Leaf(s) }
}

fn text(name: &str, v: &str) -> ConfigField {
    leaf(name, FieldType::String, Scalar::Text(v.to_string()))
}

fn nested(name: &str, node: ConfigNode) -> ConfigField {
    ConfigField { meta: meta(name, FieldType::Nested), value: FieldValue::Nested(node) }
}

fn server() -> ConfigNode {
    ConfigNode {
        title: "Server".to_string(),
        fields: vec![
            text("host", "localhost"),
            leaf("port", FieldType::U16, Scalar::Unsigned(8080)),
        ],
    }
}

fn app_config() -> ConfigNode {
    ConfigNode {
        title: "Config".to_string(),
        fields: vec![
            text("name", "alice"),
            leaf("retries", FieldType::U32, Scalar::Unsigned(3)),
            nested("server", server()),
        ],
    }
}

fn child<'a>(node: &'a ConfigNode, name: &str) -> &'a ConfigNode {
    let f = node.fields.iter().find(|f| f.meta.name == name).unwrap();
    match &f.value {
        FieldValue::Nested(n) => n,
        _ => panic!("not a subtree"),
    }
}

fn value_of<'a>(node: &'a ConfigNode, name: &str) -> &'a FieldValue {
    &node.fields.iter().find(|f| f.meta.name == name).unwrap().value
}

fn text_of(node: &ConfigNode, name: &str) -> String {
    match value_of(node, name) {
        FieldValue::Leaf(Scalar::Text(s)) => s.clone(),
        _ => panic!("not a string leaf"),
    }
}

fn unsigned_of(node: &ConfigNode, name: &str) -> u128 {
    match value_of(node, name) {
        FieldValue::Leaf(Scalar::Unsigned(n)) => *n,
        _ => panic!("not an unsigned leaf"),
    }
}

fn bool_of(node: &ConfigNode, name: &str) -> bool {
    match value_of(node, name) {
        FieldValue::Leaf(Scalar::Bool(b)) => *b,
        _ => panic!("not a boolean leaf"),
    }
}

fn replace_buffer(c: &mut MenuController, s: &str) {
    while c.edit_cursor > 0 {
        c.handle_backspace();
    }
    while !c.edit_buffer.is_empty() {
        c.handle_delete();
    }
    for ch in s.chars() {
        c.handle_edit_input(ch);
    }
}

#[test]
fn nested_edit_is_written_and_navigation_is_replayed() {
    let mut c = MenuController::new(app_config());
    c.menu_state.next();
    c.menu_state.next();
    assert_eq!(c.menu_state.get_current_item().unwrap().label, "server");
    assert!(c.enter_submenu().is_ok());
    let items: Vec<(String, String)> =
        c.menu_state.items.iter().map(|i| (i.label.clone(), i.value.clone())).collect();
    assert_eq!(
        items,
        vec![
            ("host".to_string(), "\"localhost\"".to_string()),
            ("port".to_string(), "8080".to_string()),
        ]
    );
    c.start_editing();
    assert!(c.editing_mode);
    assert_eq!(c.edit_buffer, "localhost");
    replace_buffer(&mut c, "remotehost");
    assert_eq!(c.finish_editing(), Ok(()));
    assert_eq!(text_of(child(&c.config, "server"), "host"), "remotehost");
    assert_eq!(text_of(&c.config, "name"), "alice");
    assert_eq!(unsigned_of(&c.config, "retries"), 3);
    assert_eq!(unsigned_of(child(&c.config, "server"), "port"), 8080);
    assert_eq!(c.menu_state.menu_stack.len(), 2);
    assert_eq!(c.menu_state.breadcrumb, vec!["Config".to_string(), "server".to_string()]);
    assert_eq!(c.menu_state.items[0].value, "\"remotehost\"");
    assert_eq!(c.menu_state.get_current_field_path(), vec!["server".to_string(), "host".to_string()]);
}

fn flags() -> ConfigNode {
    ConfigNode {
        title: "Flags".to_string(),
        fields: vec![
            leaf("verbose", FieldType::Bool, Scalar::Bool(true)),
            leaf("enabled", FieldType::Bool, Scalar::Bool(false)),
        ],
    }
}

#[test]
fn toggling_twice_restores_the_value_without_editing() {
    let mut c = MenuController::new(flags());
    c.menu_state.next();
    assert_eq!(c.menu_state.get_current_item().unwrap().value, "false");
    assert_eq!(c.toggle_boolean(), Ok(()));
    assert!(!c.editing_mode);
    assert!(bool_of(&c.config, "enabled"));
    assert_eq!(c.menu_state.current_selection, 1);
    assert_eq!(c.menu_state.get_current_item().unwrap().value, "true");
    assert_eq!(c.toggle_boolean(), Ok(()));
    assert!(!c.editing_mode);
    assert!(!bool_of(&c.config, "enabled"));
    assert!(bool_of(&c.config, "verbose"));
}

#[test]
fn toggling_true_commits_false_then_true() {
    let mut c = MenuController::new(flags());
    assert_eq!(c.menu_state.get_current_item().unwrap().value, "true");
    assert_eq!(c.toggle_boolean(), Ok(()));
    assert!(!bool_of(&c.config, "verbose"));
    assert_eq!(c.menu_state.get_current_item().unwrap().value, "false");
    assert_eq!(c.toggle_boolean(), Ok(()));
    assert!(bool_of(&c.config, "verbose"));
}

#[test]
fn toggle_outside_a_boolean_does_nothing() {
    let mut c = MenuController::new(app_config());
    assert_eq!(c.toggle_boolean(), Ok(()));
    assert_eq!(text_of(&c.config, "name"), "alice");
}

#[test]
fn unparsable_integer_is_rejected_and_the_edit_closes() {
    let mut c = MenuController::new(app_config());
    c.menu_state.next();
    c.start_editing();
    assert_eq!(c.edit_buffer, "3");
    replace_buffer(&mut c, "not-a-number");
    assert_eq!(c.finish_editing(), Err(ConfigError::ParseError));
    assert!(!c.editing_mode);
    assert_eq!(unsigned_of(&c.config, "retries"), 3);
    assert_eq!(c.menu_state.get_current_item().unwrap().value, "3");
}

#[test]
fn entering_a_leaf_fails_and_changes_nothing() {
    let mut c = MenuController::new(app_config());
    c.menu_state.next();
    let before: Vec<(String, String)> =
        c.menu_state.items.iter().map(|i| (i.label.clone(), i.value.clone())).collect();
    assert_eq!(c.enter_submenu(), Err(ConfigError::NotNested));
    let after: Vec<(String, String)> =
        c.menu_state.items.iter().map(|i| (i.label.clone(), i.value.clone())).collect();
    assert_eq!(before, after);
    assert_eq!(c.menu_state.menu_stack.len(), 1);
    assert_eq!(c.menu_state.current_selection, 1);
}

#[test]
fn going_back_at_the_root_does_nothing() {
    let mut c = MenuController::new(app_config());
    c.menu_state.next();
    c.menu_state.go_back();
    assert_eq!(c.menu_state.menu_stack.len(), 1);
    assert_eq!(c.menu_state.breadcrumb, vec!["Config".to_string()]);
    assert_eq!(c.menu_state.items.len(), 3);
    assert_eq!(c.menu_state.current_selection, 1);
    assert!(!c.menu_state.can_go_back());
}

#[test]
fn going_back_restores_the_selection() {
    let mut c = MenuController::new(app_config());
    c.menu_state.previous();
    assert_eq!(c.menu_state.current_selection, 2);
    assert!(c.enter_submenu().is_ok());
    assert!(c.menu_state.can_go_back());
    assert_eq!(c.menu_state.get_navigation_path(), vec!["server".to_string()]);
    c.menu_state.go_back();
    assert_eq!(c.menu_state.menu_stack.len(), 1);
    assert_eq!(c.menu_state.current_selection, 2);
    assert_eq!(c.menu_state.items[0].label, "name");
}

#[test]
fn unchanged_edit_keeps_every_leaf() {
    let root = ConfigNode {
        title: "All".to_string(),
        fields: vec![
            text("s", "say \"hi\" \\ there"),
            leaf("b", FieldType::Bool, Scalar::Bool(true)),
            leaf("i8", FieldType::I8, Scalar::Signed(-128)),
            leaf("i64", FieldType::I64, Scalar::Signed(i64::MIN as i128)),
            leaf("i128", FieldType::I128, Scalar::Signed(i128::MIN)),
            leaf("u128", FieldType::U128, Scalar::Unsigned(u128::MAX)),
            leaf("usize", FieldType::Usize, Scalar::Unsigned(0)),
        ],
    };
    let mut c = MenuController::new(root);
    for _ in 0..7 {
        let before = format_field_value(&c.config.fields[c.menu_state.current_selection].value);
        c.start_editing();
        assert_eq!(c.finish_editing(), Ok(()));
        let after = format_field_value(&c.config.fields[c.menu_state.current_selection].value);
        assert_eq!(before, after);
        c.menu_state.next();
    }
    assert_eq!(text_of(&c.config, "s"), "say \"hi\" \\ there");
}

#[test]
fn deep_edit_reads_back_and_keeps_siblings() {
    let inner = ConfigNode {
        title: "Inner".to_string(),
        fields: vec![leaf("depth", FieldType::I32, Scalar::Signed(1)), text("tag", "x")],
    };
    let mid = ConfigNode {
        title: "Mid".to_string(),
        fields: vec![nested("inner", inner), leaf("on", FieldType::Bool, Scalar::Bool(false))],
    };
    let root = ConfigNode {
        title: "Root".to_string(),
        fields: vec![nested("mid", mid), text("label", "top")],
    };
    let mut c = MenuController::new(root);
    assert!(c.enter_submenu().is_ok());
    assert!(c.enter_submenu().is_ok());
    c.start_editing();
    replace_buffer(&mut c, "-42");
    assert_eq!(c.finish_editing(), Ok(()));
    let inner = child(child(&c.config, "mid"), "inner");
    assert_eq!(value_of(inner, "depth"), &FieldValue::Leaf(Scalar::Signed(-42)));
    assert_eq!(text_of(inner, "tag"), "x");
    assert!(!bool_of(child(&c.config, "mid"), "on"));
    assert_eq!(text_of(&c.config, "label"), "top");
    assert_eq!(c.menu_state.menu_stack.len(), 3);
    assert_eq!(c.menu_state.items[0].value, "-42");
}

#[test]
fn integer_text_follows_the_type_range() {
    let mut f = leaf("n", FieldType::I8, Scalar::Signed(0));
    assert_eq!(parse_and_set(&mut f, "-128"), Ok(()));
    assert_eq!(f.value, FieldValue::Leaf(Scalar::Signed(-128)));
    assert_eq!(parse_and_set(&mut f, "-129"), Err(ConfigError::ParseError));
    assert_eq!(parse_and_set(&mut f, "128"), Err(ConfigError::ParseError));
    assert_eq!(parse_and_set(&mut f, "+127"), Ok(()));
    assert_eq!(f.value, FieldValue::Leaf(Scalar::Signed(127)));
    assert_eq!(parse_and_set(&mut f, ""), Err(ConfigError::ParseError));
    assert_eq!(parse_and_set(&mut f, "-"), Err(ConfigError::ParseError));
    assert_eq!(parse_and_set(&mut f, " 1"), Err(ConfigError::ParseError));
    let mut u = leaf("u", FieldType::U8, Scalar::Unsigned(0));
    assert_eq!(parse_and_set(&mut u, "255"), Ok(()));
    assert_eq!(parse_and_set(&mut u, "256"), Err(ConfigError::ParseError));
    assert_eq!(parse_and_set(&mut u, "-0"), Err(ConfigError::ParseError));
    assert_eq!(u.value, FieldValue::Leaf(Scalar::Unsigned(255)));
    let mut big = leaf("b", FieldType::U128, Scalar::Unsigned(0));
    assert_eq!(parse_and_set(&mut big, "340282366920938463463374607431768211455"), Ok(()));
    assert_eq!(big.value, FieldValue::Leaf(Scalar::Unsigned(u128::MAX)));
    assert_eq!(
        parse_and_set(&mut big, "340282366920938463463374607431768211456"),
        Err(ConfigError::ParseError)
    );
}

#[test]
fn boolean_and_nested_fields_parse_as_declared() {
    let mut b = leaf("b", FieldType::Bool, Scalar::Bool(false));
    assert_eq!(parse_and_set(&mut b, "true"), Ok(()));
    assert_eq!(b.value, FieldValue::Leaf(Scalar::Bool(true)));
    assert_eq!(parse_and_set(&mut b, "True"), Err(ConfigError::ParseError));
    let mut n = nested("server", server());
    assert_eq!(parse_and_set(&mut n, "x"), Err(ConfigError::ParseError));
    let mut fl = leaf("ratio", FieldType::F64, Scalar::Bool(false));
    assert_eq!(parse_and_set(&mut fl, "1.5"), Err(ConfigError::ParseError));
}

#[test]
fn optional_field_shows_and_takes_the_unset_marker() {
    let mut f = ConfigField {
        meta: FieldMetadata {
            name: "nick".to_string(),
            is_nested: false,
            is_option: true,
            is_vec: false,
            field_type: FieldType::String,
        },
        value: FieldValue::Unset,
    };
    assert_eq!(format_field_value(&f.value), "<not set>");
    assert_eq!(parse_and_set(&mut f, "bob"), Ok(()));
    assert_eq!(format_field_value(&f.value), "\"bob\"");
    assert_eq!(parse_and_set(&mut f, "<not set>"), Ok(()));
    assert_eq!(f.value, FieldValue::Leaf(Scalar::Text("<not set>".to_string())));
    f.value = FieldValue::Unset;
    assert_eq!(parse_and_set(&mut f, "<not set>"), Ok(()));
    assert_eq!(f.value, FieldValue::Unset);
    let mut n = ConfigField {
        meta: FieldMetadata {
            name: "limit".to_string(),
            is_nested: false,
            is_option: true,
            is_vec: false,
            field_type: FieldType::U32,
        },
        value: FieldValue::Leaf(Scalar::Unsigned(5)),
    };
    assert_eq!(format_field_value(&n.value), "5");
    assert_eq!(parse_and_set(&mut n, "<not set>"), Ok(()));
    assert_eq!(n.value, FieldValue::Unset);
}

#[test]
fn unchanged_edit_keeps_optional_fields() {
    let opt = |name: &str, field_type: FieldType, value: FieldValue| ConfigField {
        meta: FieldMetadata {
            name: name.to_string(),
            is_nested: false,
            is_option: true,
            is_vec: false,
            field_type,
        },
        value,
    };
    let root = ConfigNode {
        title: "Opt".to_string(),
        fields: vec![
            opt("marker", FieldType::String, FieldValue::Leaf(Scalar::Text("<not set>".to_string()))),
            opt("nick", FieldType::String, FieldValue::Unset),
            opt("limit", FieldType::U32, FieldValue::Unset),
            opt("depth", FieldType::I16, FieldValue::Leaf(Scalar::Signed(-3))),
        ],
    };
    let mut c = MenuController::new(root);
    for _ in 0..4 {
        let before = format_field_value(&c.config.fields[c.menu_state.current_selection].value);
        c.start_editing();
        assert_eq!(c.finish_editing(), Ok(()));
        let after = format_field_value(&c.config.fields[c.menu_state.current_selection].value);
        assert_eq!(before, after);
        c.menu_state.next();
    }
    assert_eq!(value_of(&c.config, "marker"), &FieldValue::Leaf(Scalar::Text("<not set>".to_string())));
    assert_eq!(value_of(&c.config, "nick"), &FieldValue::Unset);
    assert_eq!(value_of(&c.config, "limit"), &FieldValue::Unset);
}

#[test]
fn values_are_shown_as_literals() {
    assert_eq!(format_field_value(&FieldValue::Leaf(Scalar::Signed(-7))), "-7");
    assert_eq!(format_field_value(&FieldValue::Leaf(Scalar::Signed(i128::MIN))), "-170141183460469231731687303715884105728");
    assert_eq!(format_field_value(&FieldValue::Leaf(Scalar::Unsigned(0))), "0");
    assert_eq!(format_field_value(&FieldValue::Leaf(Scalar::Bool(false))), "false");
    assert_eq!(format_field_value(&FieldValue::Leaf(Scalar::Text("a\"b\\c".to_string()))), "\"a\\\"b\\\\c\"");
    assert_eq!(
        format_field_value(&FieldValue::List(vec![Scalar::Unsigned(1), Scalar::Unsigned(22)])),
        "[1, 22]"
    );
    assert_eq!(format_field_value(&FieldValue::List(vec![])), "[]");
    assert_eq!(format_field_value(&FieldValue::Nested(server())), "Server");
}

#[test]
fn quotes_are_stripped_only_when_enclosing() {
    assert_eq!(strip_debug_quotes("\"a\\\"b\\\\c\""), "a\"b\\c");
    assert_eq!(strip_debug_quotes("plain"), "plain");
    assert_eq!(strip_debug_quotes("\""), "\"");
    assert_eq!(strip_debug_quotes("\"\""), "");
    assert_eq!(strip_debug_quotes("\"é\""), "é");
}

#[test]
fn lists_and_subtrees_are_not_edited_as_text() {
    let root = ConfigNode {
        title: "R".to_string(),
        fields: vec![
            ConfigField {
                meta: FieldMetadata {
                    name: "ports".to_string(),
                    is_nested: false,
                    is_option: false,
                    is_vec: true,
                    field_type: FieldType::U16,
                },
                value: FieldValue::List(vec![Scalar::Unsigned(80)]),
            },
            nested("server", server()),
        ],
    };
    let mut c = MenuController::new(root);
    assert!(c.menu_state.items[0].is_vec_container);
    c.start_editing();
    assert!(!c.editing_mode);
    c.menu_state.next();
    assert!(c.is_current_submenu());
    c.start_editing();
    assert!(!c.editing_mode);
    assert_eq!(c.finish_editing(), Ok(()));
}

#[test]
fn optional_subtree_without_value_cannot_be_entered() {
    let root = ConfigNode {
        title: "R".to_string(),
        fields: vec![ConfigField {
            meta: FieldMetadata {
                name: "proxy".to_string(),
                is_nested: true,
                is_option: true,
                is_vec: false,
                field_type: FieldType::Nested,
            },
            value: FieldValue::Unset,
        }],
    };
    let mut c = MenuController::new(root);
    assert_eq!(c.menu_state.items[0].value, "<not set>");
    assert_eq!(c.enter_submenu(), Err(ConfigError::AccessFailed));
    assert_eq!(c.menu_state.menu_stack.len(), 1);
}

#[test]
fn empty_level_has_no_current_item() {
    let mut c = MenuController::new(ConfigNode { title: "Empty".to_string(), fields: vec![] });
    assert!(c.menu_state.get_current_item().is_none());
    c.menu_state.next();
    c.menu_state.previous();
    assert_eq!(c.menu_state.current_selection, 0);
    assert_eq!(c.enter_submenu(), Err(ConfigError::NotFound));
    assert!(c.menu_state.get_current_field_path().is_empty());
}

#[test]
fn selection_wraps_both_ways() {
    let mut c = MenuController::new(app_config());
    c.menu_state.previous();
    assert_eq!(c.menu_state.current_selection, 2);
    c.menu_state.next();
    assert_eq!(c.menu_state.current_selection, 0);
}

#[test]
fn buffer_edits_respect_the_cursor() {
    let mut c = MenuController::new(app_config());
    c.start_editing();
    assert_eq!(c.edit_buffer, "alice");
    assert_eq!(c.edit_cursor, 5);
    c.move_cursor_right();
    assert_eq!(c.edit_cursor, 5);
    c.move_cursor_left();
    c.move_cursor_left();
    c.handle_backspace();
    assert_eq!(c.edit_buffer, "alce");
    c.handle_delete();
    assert_eq!(c.edit_buffer, "ale");
    c.handle_edit_input('é');
    assert_eq!(c.edit_buffer, "alée");
    assert_eq!(c.edit_cursor, 3);
    c.handle_delete();
    assert_eq!(c.edit_buffer, "alé");
    c.handle_delete();
    assert_eq!(c.edit_buffer, "alé");
    for _ in 0..5 {
        c.move_cursor_left();
    }
    assert_eq!(c.edit_cursor, 0);
    c.handle_backspace();
    assert_eq!(c.edit_buffer, "alé");
    c.cancel_editing();
    assert!(!c.editing_mode);
    assert_eq!(c.edit_buffer, "");
    assert_eq!(text_of(&c.config, "name"), "alice");
}

#[test]
fn edit_not_found_on_a_missing_path() {
    let mut root = app_config();
    let path = vec!["server".to_string(), "nope".to_string()];
    assert_eq!(
        config_menu::resolve::apply_edit_at_path(&mut root, &path, "1"),
        Err(ConfigError::NotFound)
    );
    let path = vec!["name".to_string(), "x".to_string()];
    assert_eq!(
        config_menu::resolve::apply_edit_at_path(&mut root, &path, "1"),
        Err(ConfigError::NotNested)
    );
    let empty: Vec<String> = vec![];
    assert_eq!(
        config_menu::resolve::apply_edit_at_path(&mut root, &empty, "1"),
        Err(ConfigError::EmptyPath)
    );
    assert_eq!(text_of(&root, "name"), "alice");
}

#[test]
fn rows_and_breadcrumb_are_drawn_as_lines() {
    let mut c = MenuController::new(app_config());
    assert_eq!(item_line(&c.menu_state.items[0]), "name: \"alice\"");
    assert_eq!(item_line(&c.menu_state.items[2]), "server: Server >");
    assert_eq!(c.help_context(), HelpContext::Root);
    c.menu_state.previous();
    assert_eq!(c.help_context(), HelpContext::Submenu);
    assert!(c.enter_submenu().is_ok());
    assert_eq!(c.menu_state.breadcrumb_text(), "Config > server");
    assert_eq!(c.help_context(), HelpContext::Nested);
    c.start_editing();
    assert_eq!(c.help_context(), HelpContext::Editing);
    let f = MenuController::new(flags());
    assert_eq!(f.help_context(), HelpContext::Boolean);
    assert_eq!(f.menu_state.breadcrumb_text(), "Flags");
}

#[test]
fn list_rows_carry_the_list_indicator() {
    let root = ConfigNode {
        title: "R".to_string(),
        fields: vec![ConfigField {
            meta: FieldMetadata {
                name: "ports".to_string(),
                is_nested: false,
                is_option: false,
                is_vec: true,
                field_type: FieldType::U16,
            },
            value: FieldValue::List(vec![Scalar::Unsigned(80), Scalar::Unsigned(443)]),
        }],
    };
    let c = MenuController::new(root);
    assert_eq!(item_line(&c.menu_state.items[0]), "ports: [80, 443] []");
}
