use adb_fastboot::aidl::ast::{AidlDecl, AidlType, Direction};
use adb_fastboot::aidl::lexer::Lexer;
use adb_fastboot::aidl::parse_aidl;
use adb_fastboot::aidl::parser::Parser;
use adb_fastboot::aidl::token::{ParseError, Token};

#[test]
fn test_parse_package_and_imports() {
    let aidl = r#"
            package com.example.service;

            import com.example.model.Foo;
            import android.os.IBinder;

            interface ITestService {
                void ping();
            }
        "#;

    let parsed = Parser::parse_str(aidl).expect("Failed to parse AIDL");
    assert_eq!(parsed.package, Some("com.example.service".to_string()));
    assert_eq!(parsed.imports, vec!["com.example.model.Foo".to_string(), "android.os.IBinder".to_string()]);
    assert_eq!(parsed.decls.len(), 1);
    if let AidlDecl::Interface(iface) = &parsed.decls[0] {
        assert_eq!(iface.name, "ITestService");
        assert_eq!(iface.methods.len(), 1);
        assert_eq!(iface.methods[0].name, "ping");
    } else {
        panic!("Expected interface decl");
    }
}

#[test]
fn test_parse_interface_methods_directions_and_ids() {
    let aidl = r#"
            package com.example.binder;

            @utf8InCpp
            interface IMyService {
                const int CONST_VAL = 100;

                void sendData(in int id, in String text, in byte[] payload) = 1;
                @nullable String receiveData(out byte[] buffer) = 2;
                oneway void notifyEvent(inout List<String> items);
            }
        "#;

    let parsed = Parser::parse_str(aidl).expect("Failed to parse interface AIDL");
    if let AidlDecl::Interface(iface) = &parsed.decls[0] {
        assert_eq!(iface.name, "IMyService");
        assert_eq!(iface.constants.len(), 1);
        assert_eq!(iface.constants[0].name, "CONST_VAL");
        assert_eq!(iface.constants[0].value, "100");

        assert_eq!(iface.methods.len(), 3);

        let m1 = &iface.methods[0];
        assert_eq!(m1.name, "sendData");
        assert_eq!(m1.id, Some(1));
        assert_eq!(m1.args.len(), 3);
        assert_eq!(m1.args[0].direction, Some(Direction::In));
        assert_eq!(m1.args[0].ty.name, "int");
        assert_eq!(m1.args[1].direction, Some(Direction::In));
        assert_eq!(m1.args[1].ty.name, "String");
        assert_eq!(m1.args[2].direction, Some(Direction::In));
        assert_eq!(m1.args[2].ty.name, "byte");
        assert_eq!(m1.args[2].ty.array_dimensions, 1);

        let m2 = &iface.methods[1];
        assert_eq!(m2.name, "receiveData");
        assert_eq!(m2.id, Some(2));
        assert!(m2.return_type.is_nullable);

        let m3 = &iface.methods[2];
        assert_eq!(m3.name, "notifyEvent");
        assert!(m3.is_oneway);
        assert_eq!(m3.args[0].direction, Some(Direction::InOut));
        assert_eq!(m3.args[0].ty.name, "List");
        assert_eq!(m3.args[0].ty.generic_args[0].name, "String");
    } else {
        panic!("Expected interface decl");
    }
}

#[test]
fn test_parse_parcelable_and_codegen() {
    let aidl = r#"
            package com.example.data;

            parcelable Foo {
                int id;
                String tag = "default";
                byte[] data;
            }
        "#;

    let parsed = Parser::parse_str(aidl).expect("Failed to parse parcelable AIDL");
    if let AidlDecl::Parcelable(p) = &parsed.decls[0] {
        assert_eq!(p.name, "Foo");
        assert_eq!(p.fields.len(), 3);
        assert_eq!(p.fields[0].name, "id");
        assert_eq!(p.fields[1].name, "tag");
        assert_eq!(p.fields[1].default_value, Some("\"default\"".to_string()));
        assert_eq!(p.fields[2].name, "data");
        assert_eq!(p.fields[2].ty.array_dimensions, 1);
    } else {
        panic!("Expected parcelable decl");
    }
}

#[test]
fn test_parse_enum_and_union() {
    let aidl = r#"
            package com.example.types;

            enum Status {
                OK = 0,
                ERROR = 1,
            }

            union Payload {
                int number;
                String text;
            }
        "#;

    let parsed = Parser::parse_str(aidl).expect("Failed to parse enum/union AIDL");
    assert_eq!(parsed.decls.len(), 2);

    if let AidlDecl::Enum(e) = &parsed.decls[0] {
        assert_eq!(e.name, "Status");
        assert_eq!(e.variants.len(), 2);
        assert_eq!(e.variants[0].name, "OK");
        assert_eq!(e.variants[1].name, "ERROR");
    } else {
        panic!("Expected enum decl");
    }

    if let AidlDecl::Union(u) = &parsed.decls[1] {
        assert_eq!(u.name, "Payload");
        assert_eq!(u.fields.len(), 2);
        assert_eq!(u.fields[0].name, "number");
        assert_eq!(u.fields[1].name, "text");
    } else {
        panic!("Expected union decl");
    }
}

#[test]
fn methods_of_oneway_interfaces_are_oneway() {
    let parsed = parse_aidl("oneway interface I { void a(); oneway void b(int x); }").unwrap();
    if let AidlDecl::Interface(iface) = &parsed.decls[0] {
        assert!(iface.is_oneway);
        assert!(iface.methods.iter().all(|m| m.is_oneway));
    } else {
        panic!("Expected interface decl");
    }
}

#[test]
fn tokens_and_their_places() {
    let tokens = Lexer::new("int x = 0x1F; // end").tokenize().unwrap();
    let kinds: Vec<&Token> = tokens.iter().map(|t| &t.0).collect();
    assert!(matches!(kinds[0], Token::Ident(s) if s == "int"));
    assert!(matches!(kinds[2], Token::Equals));
    assert!(matches!(kinds[3], Token::IntLit(31)));
    assert!(matches!(kinds[4], Token::Semi));
    assert!(matches!(kinds[5], Token::Eof));
    assert_eq!(tokens[3].1, 8);
    assert!(tokens.windows(2).all(|w| w[0].1 <= w[1].1));
}

#[test]
fn errors_have_places() {
    assert!(matches!(Lexer::new("a $").tokenize(), Err(ParseError::UnexpectedChar('$', 2))));
    assert!(matches!(Lexer::new("/* open").tokenize(), Err(ParseError::UnterminatedComment(_))));
    assert!(matches!(Lexer::new("\"open").tokenize(), Err(ParseError::UnterminatedString(_))));
    assert!(matches!(parse_aidl("interface {"), Err(ParseError::ExpectedToken { .. })));
    assert!(matches!(parse_aidl("nonsense X {}"), Err(_)));
    assert!(parse_aidl("interface {").unwrap_err().message().len() > 0);
}

#[test]
fn primitive_types() {
    assert!(AidlType::primitive("int").is_primitive());
    assert!(!AidlType::new("Foo").is_primitive());
    assert_eq!(Direction::InOut.keyword(), "inout");
}

#[test]
fn trees_are_copied_whole() {
    let parsed = parse_aidl("parcelable P { Map<String, List<int[]>> m; @nullable String s = \"x\"; }").unwrap();
    assert_eq!(parsed.clone(), parsed);
    if let AidlDecl::Parcelable(p) = &parsed.decls[0] {
        let copy = p.fields[0].ty.clone();
        assert_eq!(copy.generic_args[1].generic_args[0].array_dimensions, 1);
        assert_eq!(copy, p.fields[0].ty);
    } else {
        panic!("Expected parcelable decl");
    }
}
