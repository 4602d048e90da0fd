use rustx::fstree::Fs;
use rustx::fstree::create_dir_all;
use rustx::fstree::read_file;
use rustx::fstree::write_file;
use rustx::interpolate::VarMap;
use rustx::interpolate::interpolate_content;
use rustx::interpolate::replace_template_vars_all;

fn path(parts: &[&str]) -> Vec<String> {
    parts.iter().map(|s| s.to_string()).collect()
}

#[test]
fn test_interpolate_content() {
    let content = "Hello {{ name }}!";
    let mut vars = VarMap::new();
    vars.insert("name".to_string(), "Alice".to_string());

    let interpolated = interpolate_content(content, &vars);
    assert_eq!(interpolated, "Hello Alice!");

    let vars_empty = VarMap::new();
    let interpolated_empty = interpolate_content(content, &vars_empty);
    assert_eq!(interpolated_empty, "Hello {{ name }}!");
}

#[test]
fn test_interpolate_whitespace_forms_resolve_identically() {
    let mut vars = VarMap::new();
    vars.insert("name".to_string(), "Alice".to_string());

    assert_eq!(interpolate_content("{{name}}", &vars), "Alice");
    assert_eq!(interpolate_content("{{ name }}", &vars), "Alice");
    assert_eq!(interpolate_content("{{  name  }}", &vars), "Alice");
}

#[test]
fn test_interpolate_unknown_placeholder_kept_verbatim() {
    let vars = VarMap::new();
    // The placeholder text survives, its whitespace included.
    assert_eq!(interpolate_content("{{nope}}", &vars), "{{nope}}");
    assert_eq!(interpolate_content("a {{  nope  }} b", &vars), "a {{  nope  }} b");
}

#[test]
fn test_interpolate_partial_and_malformed() {
    let mut vars = VarMap::new();
    vars.insert("a".to_string(), "1".to_string());
    // Only well-formed placeholders are touched.
    assert_eq!(interpolate_content("{{a}} {{", &vars), "1 {{");
    assert_eq!(interpolate_content("{ {a} }", &vars), "{ {a} }");
    assert_eq!(interpolate_content("{{a b}}", &vars), "{{a b}}");
    assert_eq!(interpolate_content("{{}}", &vars), "{{}}");
}

#[test]
fn test_interpolate_replaces_every_occurrence() {
    let mut vars = VarMap::new();
    vars.insert("x".to_string(), "v".to_string());
    assert_eq!(interpolate_content("{{x}}-{{x}}-{{x}}", &vars), "v-v-v");
}

#[test]
fn test_var_map_insert_overrides() {
    let mut vars = VarMap::new();
    vars.insert("k".to_string(), "first".to_string());
    vars.insert("k".to_string(), "second".to_string());
    assert_eq!(interpolate_content("{{k}}", &vars), "second");
}

#[test]
fn test_replace_template_vars_all() {
    let mut fs = Fs::new();
    create_dir_all(&mut fs, &path(&["tmp"])).unwrap();
    write_file(&mut fs, &path(&["tmp", "file.txt"]), "Hello {{ name }}!".to_string()).unwrap();

    let mut vars = VarMap::new();
    vars.insert("name".to_string(), "Alice".to_string());

    let processed_files =
        replace_template_vars_all(&mut fs, &path(&["tmp"]), &Vec::new(), &vars).unwrap();

    assert_eq!(processed_files.len(), 1);
    assert_eq!(processed_files[0], "tmp/file.txt");

    assert_eq!(read_file(&fs, &path(&["tmp", "file.txt"])).unwrap(), "Hello Alice!");
}

#[test]
fn test_replace_template_vars_all_skips_excluded() {
    let mut fs = Fs::new();
    create_dir_all(&mut fs, &path(&["tmp", "target"])).unwrap();
    write_file(&mut fs, &path(&["tmp", "a.txt"]), "{{ k }}".to_string()).unwrap();
    write_file(&mut fs, &path(&["tmp", "target", "b.txt"]), "{{ k }}".to_string()).unwrap();

    let mut vars = VarMap::new();
    vars.insert("k".to_string(), "v".to_string());

    let files =
        replace_template_vars_all(&mut fs, &path(&["tmp"]), &path(&["target"]), &vars).unwrap();

    assert_eq!(files, vec!["tmp/a.txt".to_string()]);
    assert_eq!(read_file(&fs, &path(&["tmp", "a.txt"])).unwrap(), "v");
    // The excluded directory's subtree is untouched.
    assert_eq!(read_file(&fs, &path(&["tmp", "target", "b.txt"])).unwrap(), "{{ k }}");
}
