use mandelbrot_renderer::options::{
    config_path_from_args, filter_from_name, map_compression, parse_filter_type, Compression, Filter,
};
use mandelbrot_renderer::text::{begins_with, ends_in, same_text, skip_chars, trim_start};

fn path(args: &[&str]) -> String {
    config_path_from_args(&args.iter().map(|a| a.to_string()).collect())
}

#[test]
fn path_is_given_in_several_forms() {
    assert_eq!(path(&[]), "config.json");
    assert_eq!(path(&["my_config.json"]), "my_config.json");
    assert_eq!(path(&["-c", "a.json"]), "a.json");
    assert_eq!(path(&["--config", "a.json"]), "a.json");
    assert_eq!(path(&["--config=a.json"]), "a.json");
    assert_eq!(path(&["--config_deep.json"]), "config_deep.json");
    assert_eq!(path(&["-deep.json"]), "deep.json");
    assert_eq!(path(&["--", "a.json"]), "a.json");
    assert_eq!(path(&["--", "-odd"]), "-odd");
}

#[test]
fn last_path_takes_precedence() {
    assert_eq!(path(&["a.json", "b.json"]), "b.json");
    assert_eq!(path(&["a.json", "-c", "b.json"]), "b.json");
    assert_eq!(path(&["-c", "a.json", "b.json"]), "b.json");
    assert_eq!(path(&["--config=a.json", "--b.json"]), "b.json");
}

#[test]
fn flags_without_a_path_are_ignored() {
    assert_eq!(path(&["-v"]), "config.json");
    assert_eq!(path(&["--config="]), "config.json");
    assert_eq!(path(&["-c"]), "config.json");
    assert_eq!(path(&["a.json", "--config"]), "a.json");
    assert_eq!(path(&["--verbose", "a.json", "-x"]), "a.json");
}

#[test]
fn compression_goes_by_level() {
    assert_eq!(map_compression(0), Compression::Fast);
    for level in 1..=8 {
        assert_eq!(map_compression(level), Compression::Default);
    }
    assert_eq!(map_compression(9), Compression::Best);
    assert_eq!(map_compression(10), Compression::Default);
}

#[test]
fn filters_go_by_name_in_any_case() {
    assert_eq!(parse_filter_type("none"), Filter::NoFilter);
    assert_eq!(parse_filter_type("nofilter"), Filter::NoFilter);
    assert_eq!(parse_filter_type("sub"), Filter::Sub);
    assert_eq!(parse_filter_type("UP"), Filter::Up);
    assert_eq!(parse_filter_type("Avg"), Filter::Avg);
    assert_eq!(parse_filter_type("PAETH"), Filter::Paeth);
    assert_eq!(parse_filter_type("adaptive"), Filter::NoFilter);
    assert_eq!(filter_from_name("PAETH"), Filter::NoFilter);
    assert_eq!(filter_from_name("paeth"), Filter::Paeth);
}

#[test]
fn text_is_compared_and_cut_by_characters() {
    assert!(same_text("über", "über"));
    assert!(!same_text("über", "uber"));
    assert!(!same_text("ab", "abc"));
    assert!(begins_with("über", "ü"));
    assert!(!begins_with("ü", "über"));
    assert!(ends_in("größe.json", ".json"));
    assert!(!ends_in("json", ".json"));
    assert_eq!(skip_chars("größe", 3), "ße");
    assert_eq!(trim_start("--a-b", '-'), "a-b");
    assert_eq!(trim_start("---", '-'), "");
}
