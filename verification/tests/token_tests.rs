use ode::tokens::{DesignTokens, DimensionUnit, TokenError, TokenType};

type StoredValue = ode::tokens::TokenValue<(f32, f32, f32, f32), f32>;

#[derive(Debug, Clone, PartialEq)]
enum TokenValue {
    Color(f32, f32, f32, f32),
    Number(f64),
}

fn make_simple_system() -> DesignTokens<TokenValue> {
    let mut tokens = DesignTokens::new();
    let light = tokens.add_collection("Colors", vec!["Light", "Dark"]);
    tokens.add_token(light, "blue-500", TokenValue::Color(0.231, 0.510, 0.965, 1.0));
    tokens
}

#[test]
fn resolve_direct_token() {
    let tokens = make_simple_system();
    let col_id = tokens.collections[0].id;
    let tok_id = tokens.collections[0].tokens[0].id;
    let resolved = tokens.resolve(col_id, tok_id).unwrap();
    assert!(matches!(resolved, TokenValue::Color(..)));
}

#[test]
fn resolve_alias_token() {
    let mut tokens = make_simple_system();
    let col_id = tokens.collections[0].id;
    let blue_id = tokens.collections[0].tokens[0].id;
    tokens.add_alias_token(col_id, "color.primary", col_id, blue_id);
    let primary_id = tokens.collections[0].tokens[1].id;
    let resolved = tokens.resolve(col_id, primary_id).unwrap();
    assert!(matches!(resolved, TokenValue::Color(..)));
}

#[test]
fn detect_cycle() {
    let mut tokens = DesignTokens::new();
    let col = tokens.add_collection("Test", vec!["Default"]);
    let a_id = tokens.add_token(col, "a", TokenValue::Number(1.0));
    let b_id = tokens.add_alias_token(col, "b", col, a_id);
    let result = tokens.set_alias(col, a_id, col, b_id);
    assert!(result.is_err());
}

#[test]
fn mode_fallback() {
    let mut tokens = DesignTokens::new();
    let col = tokens.add_collection("Colors", vec!["Light", "Dark"]);
    let light_mode = tokens.collections[0].modes[0].id;
    tokens.add_token_for_mode(col, "bg", light_mode, TokenValue::Color(1.0, 1.0, 1.0, 1.0));
    let dark_mode = tokens.collections[0].modes[1].id;
    tokens.set_active_mode(col, dark_mode);
    let tok_id = tokens.collections[0].tokens[0].id;
    let resolved = tokens.resolve(col, tok_id).unwrap();
    assert!(matches!(resolved, TokenValue::Color(..)));
}

#[test]
fn cross_collection_alias() {
    let mut tokens = DesignTokens::new();
    let colors = tokens.add_collection("Colors", vec!["Default"]);
    let blue_id = tokens.add_token(colors, "blue-500", TokenValue::Color(0.231, 0.510, 0.965, 1.0));
    let components = tokens.add_collection("Components", vec!["Default"]);
    let _alias_id = tokens.add_alias_token(components, "button.bg", colors, blue_id);
    let alias_tok_id = tokens.collections[1].tokens[0].id;
    let resolved = tokens.resolve(components, alias_tok_id).unwrap();
    assert!(matches!(resolved, TokenValue::Color(..)));
}

#[test]
fn cycle_error_is_cyclic_alias() {
    let mut tokens = DesignTokens::new();
    let col = tokens.add_collection("Test", vec!["Default"]);
    let a_id = tokens.add_token(col, "a", TokenValue::Number(1.0));
    let b_id = tokens.add_alias_token(col, "b", col, a_id);
    assert_eq!(tokens.set_alias(col, a_id, col, b_id), Err(TokenError::CyclicAlias));
    // The refused alias leaves both tokens resolving to the value.
    assert_eq!(tokens.resolve(col, b_id), Ok(&TokenValue::Number(1.0)));
}

#[test]
fn alias_resolves_like_its_target() {
    let mut tokens = DesignTokens::new();
    let col = tokens.add_collection("Numbers", vec!["Default"]);
    let a = tokens.add_token(col, "a", TokenValue::Number(2.0));
    let b = tokens.add_token(col, "b", TokenValue::Number(3.0));
    assert_eq!(tokens.set_alias(col, a, col, b), Ok(()));
    assert_eq!(tokens.resolve(col, a), tokens.resolve(col, b));
    assert_eq!(tokens.resolve(col, a), Ok(&TokenValue::Number(3.0)));
}

#[test]
fn resolve_errors() {
    let mut tokens: DesignTokens<TokenValue> = DesignTokens::new();
    assert_eq!(tokens.resolve(7, 0), Err(TokenError::CollectionNotFound));
    let col = tokens.add_collection("Empty", vec!["Default"]);
    assert_eq!(tokens.resolve(col, 99), Err(TokenError::NotFound));
    let dark = 99;
    let t = tokens.add_token_for_mode(col, "only-dark", dark, TokenValue::Number(1.0));
    assert_eq!(tokens.resolve(col, t), Err(TokenError::MissingValue));
    assert_eq!(tokens.set_alias(5, t, col, t), Err(TokenError::NotFound));
    assert_eq!(tokens.set_alias(col, 1234, col, t), Err(TokenError::NotFound));
}

#[test]
fn identifiers_are_handed_out_in_order() {
    let mut tokens = DesignTokens::new();
    let c0 = tokens.add_collection("A", vec!["Light", "Dark"]);
    let c1 = tokens.add_collection("B", vec![]);
    assert_eq!((c0, c1), (0, 1));
    assert_eq!(tokens.collections[0].modes[0].id, 0);
    assert_eq!(tokens.collections[0].modes[1].id, 1);
    assert_eq!(tokens.collections[0].default_mode, 0);
    assert_eq!(tokens.collections[1].default_mode, 0);
    let t0 = tokens.add_token(c0, "x", TokenValue::Number(0.5));
    let t1 = tokens.add_token(c1, "y", TokenValue::Number(0.25));
    assert_eq!((t0, t1), (0, 1));
}

#[test]
fn token_type_derived_from_value() {
    let val = StoredValue::Color((0.0, 0.0, 0.0, 1.0));
    assert_eq!(val.token_type(), TokenType::Color);
    let val = StoredValue::Number(42.0);
    assert_eq!(val.token_type(), TokenType::Number);
}

#[test]
fn token_type_of_every_kind() {
    assert_eq!(StoredValue::Dimension { value: 4.0, unit: DimensionUnit::Px }.token_type(), TokenType::Dimension);
    assert_eq!(StoredValue::FontFamily("Inter".to_string()).token_type(), TokenType::FontFamily);
    assert_eq!(StoredValue::FontWeight(700).token_type(), TokenType::FontWeight);
    assert_eq!(StoredValue::Duration(0.2).token_type(), TokenType::Duration);
    assert_eq!(StoredValue::CubicBezier([0.0, 0.0, 1.0, 1.0]).token_type(), TokenType::CubicBezier);
    assert_eq!(StoredValue::String("x".to_string()).token_type(), TokenType::String);
}
