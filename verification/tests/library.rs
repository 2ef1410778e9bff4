//! End-to-end and unit tests for the dead-export scanner, exercising the
//! library through its public byte-based interface.

use dead_exports::decls::{extract_export_name, extract_file_decls, EntityType};
use dead_exports::files::{has_source_extension, should_skip_directory, should_skip_file};
use dead_exports::git::{change_type_of, ChangeType, ChangedFile, DeltaKind};
use dead_exports::graph::{
    all_entities_sorted, parse_typescript_source, query_entity_by_id, scan_sources,
    unused_entities, Entity,
};
use dead_exports::ids::generate_entity_id;
use dead_exports::imports::{extract_imports, ImportInfo};
use dead_exports::resolve::resolve_import_path;
use dead_exports::strip::strip_comments;
use dead_exports::text::is_entity_used_locally;

fn b(s: &str) -> Vec<u8> {
    s.as_bytes().to_vec()
}

fn t(v: &[u8]) -> String {
    String::from_utf8(v.to_vec()).unwrap()
}

fn extract(content: &str, file_path: &str, root_path: &str) -> Vec<ImportInfo> {
    extract_imports(&b(content), &b(file_path), &b(root_path), &Vec::new())
}

#[test]
fn test_extract_single_named_import() {
    let content = r#"import { Foo } from './foo';"#;
    let imports = extract(content, "/project/src/bar.ts", "/project");
    assert_eq!(imports.len(), 1);
    assert_eq!(imports[0].name, b("Foo"));
    assert!(t(&imports[0].path).contains("foo"));
}

#[test]
fn test_extract_multiple_named_imports() {
    let content = r#"import { Foo, Bar, Baz } from './utils';"#;
    let imports = extract(content, "/project/src/index.ts", "/project");
    assert_eq!(imports.len(), 3);
    assert_eq!(imports[0].name, b("Foo"));
    assert_eq!(imports[1].name, b("Bar"));
    assert_eq!(imports[2].name, b("Baz"));
}

#[test]
fn test_extract_multiline_named_imports() {
    let content = "import {\n  Foo,\n  Bar,\n  Baz\n} from './utils';";
    let imports = extract(content, "/project/src/index.ts", "/project");
    assert_eq!(imports.len(), 3);
    assert_eq!(imports[0].name, b("Foo"));
    assert_eq!(imports[1].name, b("Bar"));
    assert_eq!(imports[2].name, b("Baz"));
}

#[test]
fn test_extract_aliased_import() {
    let content = r#"import { Foo as F, Bar as B } from './utils';"#;
    let imports = extract(content, "/project/src/index.ts", "/project");
    assert_eq!(imports.len(), 2);
    assert_eq!(imports[0].name, b("Foo"));
    assert_eq!(imports[1].name, b("Bar"));
}

#[test]
fn test_extract_default_import() {
    let content = r#"import Foo from './foo';"#;
    let imports = extract(content, "/project/src/bar.ts", "/project");
    assert_eq!(imports.len(), 1);
    assert_eq!(imports[0].name, b("Foo"));
}

#[test]
fn test_extract_awork_alias_import() {
    let content = r#"import { Model } from '@awork/models';"#;
    let imports = extract(content, "/project/apps/web/src/index.ts", "/project");
    assert_eq!(imports.len(), 1);
    assert_eq!(imports[0].name, b("Model"));
    assert!(t(&imports[0].path).contains("libs/shared/src/lib"));
    assert!(t(&imports[0].path).contains("models"));
    assert!(!t(&imports[0].path).contains("@awork"));
}

#[test]
fn test_skip_external_package_imports() {
    let content = "import { useState } from 'react';\nimport { Observable } from 'rxjs';\nimport { Foo } from './local';";
    let imports = extract(content, "/project/src/index.ts", "/project");
    assert_eq!(imports.len(), 1);
    assert_eq!(imports[0].name, b("Foo"));
}

#[test]
fn test_extract_multiple_import_statements() {
    let content = "import { Foo } from './foo';\nimport { Bar, Baz } from './bar';\nimport Default from './default';";
    let imports = extract(content, "/project/src/index.ts", "/project");
    assert_eq!(imports.len(), 4);
    assert_eq!(imports[0].name, b("Foo"));
    assert_eq!(imports[1].name, b("Bar"));
    assert_eq!(imports[2].name, b("Baz"));
    assert_eq!(imports[3].name, b("Default"));
}

#[test]
fn test_extract_relative_parent_path_import() {
    let content = r#"import { Util } from '../utils/helper';"#;
    let imports = extract(content, "/project/src/components/button.ts", "/project");
    assert_eq!(imports.len(), 1);
    assert_eq!(imports[0].name, b("Util"));
    assert!(t(&imports[0].path).contains("utils"));
    assert!(t(&imports[0].path).contains("helper"));
}

#[test]
fn test_import_path_gets_ts_extension() {
    let content = r#"import { Foo } from './foo';"#;
    let imports = extract(content, "/project/src/bar.ts", "/project");
    assert_eq!(imports.len(), 1);
    assert!(t(&imports[0].path).ends_with(".ts"));
}

#[test]
fn test_multiline_import_with_trailing_comma() {
    let content = "import {\n  Foo,\n  Bar,\n} from './utils';";
    let imports = extract(content, "/project/src/index.ts", "/project");
    assert_eq!(imports.len(), 2);
    assert_eq!(imports[0].name, b("Foo"));
    assert_eq!(imports[1].name, b("Bar"));
}

#[test]
fn test_import_info_has_id() {
    let content = r#"import { Foo } from './foo';"#;
    let imports = extract(content, "/project/src/bar.ts", "/project");
    assert_eq!(imports.len(), 1);
    assert!(!imports[0].id.is_empty());
}

#[test]
fn test_strip_single_line_comment() {
    let content = "const a = 1; // this is a comment\nconst b = 2;";
    let result = strip_comments(&b(content));
    assert_eq!(result, b("const a = 1; \nconst b = 2;"));
}

#[test]
fn test_strip_multiline_comment() {
    let content = "const a = 1; /* this is\na multiline\ncomment */ const b = 2;";
    let result = strip_comments(&b(content));
    assert_eq!(result, b("const a = 1;  const b = 2;"));
}

#[test]
fn test_strip_full_line_comment() {
    let content = "// full line comment\nconst a = 1;";
    let result = strip_comments(&b(content));
    assert_eq!(result, b("\nconst a = 1;"));
}

#[test]
fn test_preserve_string_with_comment_like_content() {
    let content = r#"const a = "// not a comment";"#;
    let result = strip_comments(&b(content));
    assert_eq!(result, b(r#"const a = "// not a comment";"#));
}

#[test]
fn test_preserve_string_with_multiline_comment_like_content() {
    let content = r#"const a = "/* not a comment */";"#;
    let result = strip_comments(&b(content));
    assert_eq!(result, b(r#"const a = "/* not a comment */";"#));
}

#[test]
fn test_skip_commented_import() {
    let content = "// import { Foo } from './foo';\nimport { Bar } from './bar';";
    let imports = extract(content, "/project/src/index.ts", "/project");
    assert_eq!(imports.len(), 1);
    assert_eq!(imports[0].name, b("Bar"));
}

#[test]
fn test_skip_multiline_commented_import() {
    let content = "/* import { Foo } from './foo'; */\nimport { Bar } from './bar';";
    let imports = extract(content, "/project/src/index.ts", "/project");
    assert_eq!(imports.len(), 1);
    assert_eq!(imports[0].name, b("Bar"));
}

#[test]
fn test_skip_import_inside_multiline_comment() {
    let content = "/*\nimport { Foo } from './foo';\nimport { Baz } from './baz';\n*/\nimport { Bar } from './bar';";
    let imports = extract(content, "/project/src/index.ts", "/project");
    assert_eq!(imports.len(), 1);
    assert_eq!(imports[0].name, b("Bar"));
}

#[test]
fn test_extract_angular_lazy_loaded_import() {
    let content = "const routes: Routes = [\n    {\n        path: 'auth',\n        loadChildren: () => import('./auth/auth.module').then(m => m.AuthModule)\n    }\n];";
    let imports = extract(content, "/project/src/app-routing.module.ts", "/project");
    assert_eq!(imports.len(), 1);
    assert_eq!(imports[0].name, b("AuthModule"));
    assert!(t(&imports[0].path).contains("auth/auth.module"));
}

#[test]
fn test_extract_multiple_angular_lazy_loaded_imports() {
    let content = "const routes: Routes = [\n    {\n        path: 'auth',\n        loadChildren: () => import('./auth/auth.module').then(m => m.AuthModule)\n    },\n    {\n        path: 'dashboard',\n        loadChildren: () => import('./dashboard/dashboard.module').then(mod => mod.DashboardModule)\n    }\n];";
    let imports = extract(content, "/project/src/app-routing.module.ts", "/project");
    assert_eq!(imports.len(), 2);
    assert_eq!(imports[0].name, b("AuthModule"));
    assert_eq!(imports[1].name, b("DashboardModule"));
}

#[test]
fn test_extract_lazy_import_with_different_param_names() {
    let content = r#"loadChildren: () => import('./users/users.module').then(module => module.UsersModule)"#;
    let imports = extract(content, "/project/src/app-routing.module.ts", "/project");
    assert_eq!(imports.len(), 1);
    assert_eq!(imports[0].name, b("UsersModule"));
}

#[test]
fn test_change_type_display() {
    assert_eq!(ChangeType::Added.label(), "A");
    assert_eq!(ChangeType::Modified.label(), "M");
    assert_eq!(ChangeType::Deleted.label(), "D");
    assert_eq!(ChangeType::Renamed.label(), "R");
}

#[test]
fn test_changed_file_new() {
    let cf = ChangedFile::new("/path/to/file.ts".to_string(), ChangeType::Modified);
    assert_eq!(cf.path, "/path/to/file.ts");
    assert_eq!(cf.change_type, ChangeType::Modified);
}

#[test]
fn test_change_type_of_delta_kinds() {
    assert_eq!(change_type_of(DeltaKind::Added), Some(ChangeType::Added));
    assert_eq!(change_type_of(DeltaKind::Modified), Some(ChangeType::Modified));
    assert_eq!(change_type_of(DeltaKind::Deleted), Some(ChangeType::Deleted));
    assert_eq!(change_type_of(DeltaKind::Renamed), Some(ChangeType::Renamed));
    assert_eq!(change_type_of(DeltaKind::Copied), Some(ChangeType::Added));
    assert_eq!(change_type_of(DeltaKind::Other), None);
}

#[test]
fn test_identity_is_deterministic_and_input_sensitive() {
    let id1 = generate_entity_id(&b("/project/a.ts"), &b("helper"));
    let id2 = generate_entity_id(&b("/project/a.ts"), &b("helper"));
    assert_eq!(id1, id2);
    let other_name = generate_entity_id(&b("/project/a.ts"), &b("helper2"));
    let other_file = generate_entity_id(&b("/project/b.ts"), &b("helper"));
    assert_ne!(id1, other_name);
    assert_ne!(id1, other_file);
}

#[test]
fn test_identity_exact_value() {
    let id = generate_entity_id(&b("/project/a.ts"), &b("helper"));
    assert_eq!(t(&id), "34535c792c096c64");
}

#[test]
fn test_extract_export_name_basic() {
    let name = extract_export_name(&b("export class FooBar extends Base {"), &b("class"));
    assert_eq!(name, Some(b("FooBar")));
    let none = extract_export_name(&b("export class {"), &b("class"));
    assert_eq!(none, None);
}

#[test]
fn test_file_decls_kinds() {
    let stripped = strip_comments(&b(
        "export class C1 {}\nexport enum E1 {}\nexport type T1 = string;\nexport interface I1 {}\nexport function f1() {}\nexport const c1 = 1;\nexport const f2 = () => 2;\n",
    ));
    let decls = extract_file_decls(&stripped);
    let got: Vec<(String, EntityType)> = decls.iter().map(|d| (t(&d.0), d.1)).collect();
    assert!(got.contains(&("C1".to_string(), EntityType::Class)));
    assert!(got.contains(&("E1".to_string(), EntityType::Enum)));
    assert!(got.contains(&("T1".to_string(), EntityType::TypeAlias)));
    assert!(got.contains(&("I1".to_string(), EntityType::Interface)));
    assert!(got.contains(&("f1".to_string(), EntityType::Function)));
    assert!(got.contains(&("c1".to_string(), EntityType::Const)));
    assert!(got.contains(&("f2".to_string(), EntityType::Function)));
}

#[test]
fn test_commented_declaration_not_extracted() {
    let stripped = strip_comments(&b("// export class Hidden {}\nexport class Shown {}\n"));
    let decls = extract_file_decls(&stripped);
    let names: Vec<String> = decls.iter().map(|d| t(&d.0)).collect();
    assert!(!names.contains(&"Hidden".to_string()));
    assert!(names.contains(&"Shown".to_string()));
}

#[test]
fn test_typeof_line_is_not_a_type_alias() {
    let stripped = strip_comments(&b("export const x = typeof window;\n"));
    let decls = extract_file_decls(&stripped);
    assert!(!decls.iter().any(|d| d.1 == EntityType::TypeAlias));
}

#[test]
fn test_local_usage_whole_word_only() {
    let content = b("export function helper() { return 1; }\nconst x = helperThing;\n");
    assert!(!is_entity_used_locally(&content, &b("helper")));
    let content2 = b("export function helper() { return 1; }\nhelper();\n");
    assert!(is_entity_used_locally(&content2, &b("helper")));
}

#[test]
fn test_resolve_prefers_existing_candidates() {
    let existing = vec![b("/project/src/foo/index.ts")];
    let r = resolve_import_path(&b("/project/src/bar.ts"), &b("./foo"), &b("/project"), &existing);
    assert_eq!(r, Some(b("/project/src/foo/index.ts")));
    let r2 = resolve_import_path(&b("/project/src/bar.ts"), &b("react"), &b("/project"), &existing);
    assert_eq!(r2, None);
}

#[test]
fn test_resolve_normalizes_parent_segments() {
    let existing = vec![b("/project/src/utils/helper.ts")];
    let r = resolve_import_path(
        &b("/project/src/components/button.ts"),
        &b("../utils/helper"),
        &b("/project"),
        &existing,
    );
    assert_eq!(r, Some(b("/project/src/utils/helper.ts")));
}

#[test]
fn test_should_skip_directory_names() {
    for name in ["mocks", "__mocks__", "mocks_stubs", "tests", "environments", "i18n"] {
        assert!(should_skip_directory(&b(name)));
    }
    assert!(!should_skip_directory(&b("src")));
}

#[test]
fn test_should_skip_file_suffixes() {
    for name in [
        "/p/a.spec.ts",
        "/p/a.d.ts",
        "/p/a.stories.ts",
        "/p/a-stub.ts",
        "/p/amocks.ts",
        "/p/amock.ts",
    ] {
        assert!(should_skip_file(&b(name)), "{}", name);
    }
    assert!(!should_skip_file(&b("/p/a.ts")));
    assert!(has_source_extension(&b("/p/a.ts")));
    assert!(has_source_extension(&b("/p/a.tsx")));
    assert!(!has_source_extension(&b("/p/a.rs")));
}

fn scan_two_files() -> (Vec<(Vec<u8>, Vec<u8>)>, Vec<u8>, Vec<Vec<u8>>) {
    let a = (
        b("/project/a.ts"),
        b("export function helper() { return 1; }\n"),
    );
    let bf = (
        b("/project/b.ts"),
        b("import { helper } from './a';\nhelper();\n"),
    );
    let existing = vec![b("/project/a.ts"), b("/project/b.ts")];
    (vec![a, bf], b("/project"), existing)
}

#[test]
fn test_unused_export_is_reported() {
    let files = vec![(
        b("/project/a.ts"),
        b("export function helper() { return 1; }\n"),
    )];
    let existing = vec![b("/project/a.ts")];
    let map = scan_sources(&files, &b("/project"), &existing);
    let unused: Vec<Entity> = unused_entities(&map);
    assert_eq!(unused.len(), 1);
    assert_eq!(unused[0].name, b("helper"));
    assert_eq!(unused[0].entity_type, EntityType::Function);
}

#[test]
fn test_imported_export_is_not_reported_unused() {
    let (files, root, existing) = scan_two_files();
    let map = scan_sources(&files, &root, &existing);
    let unused = unused_entities(&map);
    assert!(!unused.iter().any(|e| e.name == b("helper")));
    let id = generate_entity_id(&b("/project/a.ts"), &b("helper"));
    let rec = query_entity_by_id(&map, &id).expect("helper should be in the map");
    assert!(rec.used);
    assert_eq!(rec.entity_type, EntityType::Function);
}

#[test]
fn test_placeholder_promotion_import_before_declaration() {
    // b.ts is scanned first, so the import creates an Unknown placeholder;
    // parsing a.ts afterwards promotes it while keeping it used.
    let (mut files, root, existing) = scan_two_files();
    files.reverse();
    let map = scan_sources(&files, &root, &existing);
    let id = generate_entity_id(&b("/project/a.ts"), &b("helper"));
    let rec = query_entity_by_id(&map, &id).expect("helper should be in the map");
    assert_eq!(rec.entity_type, EntityType::Function);
    assert!(rec.used);
    assert!(!unused_entities(&map).iter().any(|e| e.name == b("helper")));
}

#[test]
fn test_unscanned_import_target_stays_unknown_and_unreported() {
    let files = vec![(
        b("/project/b.ts"),
        b("import { Mystery } from './elsewhere';\n"),
    )];
    let existing = vec![b("/project/b.ts")];
    let map = scan_sources(&files, &b("/project"), &existing);
    let all = all_entities_sorted(&map);
    assert_eq!(all.len(), 1);
    assert_eq!(all[0].entity_type, EntityType::Unknown);
    assert!(all[0].used);
    assert!(unused_entities(&map).is_empty());
}

#[test]
fn test_scan_is_deterministic_across_runs() {
    let (files, root, existing) = scan_two_files();
    let map1 = scan_sources(&files, &root, &existing);
    let map2 = scan_sources(&files, &root, &existing);
    let all1 = all_entities_sorted(&map1);
    let all2 = all_entities_sorted(&map2);
    assert_eq!(all1.len(), all2.len());
    for (e1, e2) in all1.iter().zip(all2.iter()) {
        assert_eq!(e1.id, e2.id);
        assert_eq!(e1.name, e2.name);
        assert_eq!(e1.entity_type, e2.entity_type);
        assert_eq!(e1.file_path, e2.file_path);
        assert_eq!(e1.used, e2.used);
    }
}

#[test]
fn test_unused_report_sorted_by_file_path() {
    let files = vec![
        (b("/project/z.ts"), b("export const zz = 1;\n")),
        (b("/project/a.ts"), b("export const aa = 1;\n")),
    ];
    let existing = vec![b("/project/z.ts"), b("/project/a.ts")];
    let map = scan_sources(&files, &b("/project"), &existing);
    let unused = unused_entities(&map);
    assert_eq!(unused.len(), 2);
    assert!(unused[0].file_path <= unused[1].file_path);
    assert_eq!(unused[0].file_path, b("/project/a.ts"));
}

#[test]
fn test_empty_content_yields_nothing() {
    let r = parse_typescript_source(&b("/project/a.ts"), &b(""), &b("/project"), &Vec::new());
    assert!(r.entities.is_empty());
    assert!(r.imports.is_empty());
}

#[test]
fn test_duplicate_declaration_is_merged_and_locally_used() {
    // The same name declared twice in one file occurs twice in the raw
    // text, so local usage marks it used, and the map holds one record.
    let files = vec![(
        b("/project/a.ts"),
        b("export const dup = 1;\nexport const dup = 2;\n"),
    )];
    let existing = vec![b("/project/a.ts")];
    let map = scan_sources(&files, &b("/project"), &existing);
    let all = all_entities_sorted(&map);
    assert_eq!(all.len(), 1);
    assert!(all[0].used);
}

#[test]
fn test_declaration_inside_string_survives_stripping() {
    let content = b("const s = 'export class NotReal {}';\n");
    let stripped = strip_comments(&content);
    assert_eq!(stripped, content);
}

#[test]
fn test_unterminated_block_comment_extends_to_end() {
    let result = strip_comments(&b("const a = 1; /* open comment\nmore"));
    assert_eq!(result, b("const a = 1; "));
}

#[test]
fn test_escaped_quote_does_not_close_string() {
    let content = b(r#"const s = "a \" // b";"#);
    let result = strip_comments(&content);
    assert_eq!(result, content);
}
