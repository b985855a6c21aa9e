use ini_doc::error::{IniError, ParseError};
use ini_doc::ini::Ini;
use ini_doc::parse::FileContent;
use ini_doc::render::LineEnding;

const INI: &str = "test.ini";

fn sample_text() -> String {
    String::from(
        "; settings of the application\n[General]\napp_name=MyApp\nversion= 1.2\n\n# where things go\n[Paths]\nlog=/var/log/myapp\ndata=/srv/data\n",
    )
}

fn sample_lines() -> Vec<String> {
    sample_text().split('\n').map(|l| l.to_string()).collect()
}

fn sample() -> Ini {
    Ini::new(INI.to_string(), FileContent::Lines(sample_lines())).unwrap()
}

#[test]
fn test_create_struct() {
    let text = sample_text();
    let str = Ini::from_string(text).unwrap();
    let file = sample();
    assert_eq!(file.config_map, str.config_map);
}

#[test]
fn test_to_string() {
    let file = sample();
    assert_ne!(file.to_string("linux").unwrap().len(), 0);
}

#[test]
fn test_save() {
    let mut file = sample();
    file.config_file = "test1.ini".to_string();
    let text = file.save("linux").unwrap();
    assert_eq!(text, file.to_string("linux").unwrap());
}

#[test]
fn test_remove_section_get() {
    let mut ini = sample();
    ini.remove_section("General");
    assert_eq!(ini.get("General", "app_name"), None)
}

#[test]
fn test_set_get() {
    let mut ini = sample();
    ini.set("General", "app_name", "app");
    assert_eq!(ini.get("General", "app_name").unwrap(), "app".to_string());
}

#[test]
fn test_remove_get() {
    let mut ini = sample();
    ini.remove("General", "app_name");
    assert_eq!(ini.get("General", "app_name"), None);
}

#[test]
fn parses_one_section_with_one_key() {
    let ini = Ini::from_string("[General]\napp_name=MyApp\n".to_string()).unwrap();
    assert_eq!(ini.config_map.keys, vec!["General".to_string()]);
    assert_eq!(ini.config_map.values[0].keys, vec!["app_name".to_string()]);
    assert_eq!(ini.config_map.values[0].values, vec!["MyApp".to_string()]);
    assert_eq!(ini.get("General", "app_name"), Some("MyApp".to_string()));
    assert_eq!(ini.config_file, "");
}

#[test]
fn stray_pair_is_refused() {
    let r = Ini::from_string("orphan=value\n".to_string());
    assert_eq!(r, Err(IniError::Parse(ParseError::KvpBeforeSection)));
}

#[test]
fn pair_before_first_header_is_refused_however_long_the_text() {
    let mut lines = vec!["# comment".to_string(), "".to_string(), "; more".to_string()];
    lines.push("k=v".to_string());
    for i in 0..50 {
        lines.push(format!("[s{}]", i));
        lines.push("a=b".to_string());
    }
    assert_eq!(
        Ini::build_struct(lines),
        Err(IniError::Parse(ParseError::KvpBeforeSection))
    );
}

#[test]
fn unknown_line_is_refused() {
    let lines = vec!["[a]".to_string(), "k=v".to_string(), "what is this".to_string()];
    assert_eq!(
        Ini::build_struct(lines),
        Err(IniError::Parse(ParseError::UnrecognizedLine))
    );
}

#[test]
fn first_error_wins() {
    let lines = vec!["nonsense".to_string(), "k=v".to_string()];
    assert_eq!(
        Ini::build_struct(lines),
        Err(IniError::Parse(ParseError::UnrecognizedLine))
    );
}

#[test]
fn no_lines_give_an_empty_document() {
    let ini = Ini::build_struct(Vec::new()).unwrap();
    assert!(ini.config_map.keys.is_empty());
    assert!(ini.config_map.values.is_empty());
    assert_eq!(ini.config_file, "");
}

#[test]
fn missing_file_gives_an_empty_bound_document() {
    let ini = Ini::new("nowhere.ini".to_string(), FileContent::Missing).unwrap();
    assert!(ini.config_map.keys.is_empty());
    assert_eq!(ini.config_file, "nowhere.ini");
    assert_eq!(ini.to_string("linux").unwrap(), "");
}

#[test]
fn unreadable_file_is_an_io_failure() {
    let r = Ini::new("locked.ini".to_string(), FileContent::Unreadable);
    assert_eq!(r, Err(IniError::IoFailure));
}

#[test]
fn loading_binds_the_document_and_keeps_parse_errors() {
    let ini = sample();
    assert_eq!(ini.config_file, INI);
    let r = Ini::new(INI.to_string(), FileContent::Lines(vec!["k=v".to_string()]));
    assert_eq!(r, Err(IniError::Parse(ParseError::KvpBeforeSection)));
}

#[test]
fn get_is_none_without_section_or_key() {
    let ini = sample();
    assert_eq!(ini.get("Nowhere", "app_name"), None);
    assert_eq!(ini.get("General", "nothing"), None);
    assert_eq!(ini.get("general", "app_name"), None);
}

#[test]
fn get_strips_one_leading_space_only() {
    let mut ini = sample();
    assert_eq!(ini.get("General", "version"), Some("1.2".to_string()));
    ini.set("General", "two", "  x");
    assert_eq!(ini.get("General", "two"), Some(" x".to_string()));
    ini.set("General", "tab", "\tx");
    assert_eq!(ini.get("General", "tab"), Some("\tx".to_string()));
    ini.set("General", "end", "x ");
    assert_eq!(ini.get("General", "end"), Some("x ".to_string()));
    ini.set("General", "none", "");
    assert_eq!(ini.get("General", "none"), Some("".to_string()));
    ini.set("General", "only", " ");
    assert_eq!(ini.get("General", "only"), Some("".to_string()));
}

#[test]
fn values_are_stored_as_written() {
    let ini = Ini::build_struct(vec!["[s]".to_string(), " k = v = w ".to_string()]).unwrap();
    assert_eq!(ini.config_map.values[0].keys, vec![" k ".to_string()]);
    assert_eq!(ini.config_map.values[0].values, vec![" v = w ".to_string()]);
    assert_eq!(ini.get("s", " k "), Some("v = w ".to_string()));
}

#[test]
fn set_creates_the_section() {
    let mut ini = Ini::empty(String::new());
    ini.set("S", "k", "v");
    assert_eq!(ini.config_map.keys, vec!["S".to_string()]);
    assert_eq!(ini.get("S", "k"), Some("v".to_string()));
}

#[test]
fn set_overwrites_and_keeps_the_rest() {
    let mut ini = sample();
    ini.set("Paths", "log", "/tmp/log");
    assert_eq!(ini.get("Paths", "log"), Some("/tmp/log".to_string()));
    assert_eq!(ini.get("Paths", "data"), Some("/srv/data".to_string()));
    assert_eq!(ini.get("General", "app_name"), Some("MyApp".to_string()));
    assert_eq!(ini.config_file, INI);
}

#[test]
fn remove_makes_nothing() {
    let mut ini = sample();
    let before = ini.clone();
    ini.remove("Nowhere", "k");
    assert_eq!(ini, before);
    ini.remove("General", "nothing");
    assert_eq!(ini, before);
    ini.remove("General", "version");
    assert_eq!(ini.get("General", "version"), None);
    assert_eq!(ini.get("General", "app_name"), Some("MyApp".to_string()));
}

#[test]
fn remove_section_of_an_absent_one_changes_nothing() {
    let mut ini = sample();
    let before = ini.clone();
    ini.remove_section("Nowhere");
    assert_eq!(ini, before);
    ini.remove_section("Paths");
    assert_eq!(ini.config_map.keys, vec!["General".to_string()]);
    assert_eq!(ini.get("Paths", "log"), None);
    assert_eq!(ini.get("Paths", "data"), None);
}

#[test]
fn a_repeated_header_keeps_what_the_section_holds() {
    let lines = vec![
        "[a]".to_string(),
        "x=1".to_string(),
        "y=2".to_string(),
        "[b]".to_string(),
        "[a]".to_string(),
        "x=3".to_string(),
    ];
    let ini = Ini::build_struct(lines).unwrap();
    assert_eq!(ini.config_map.keys, vec!["a".to_string(), "b".to_string()]);
    assert_eq!(ini.get("a", "x"), Some("3".to_string()));
    assert_eq!(ini.get("a", "y"), Some("2".to_string()));
}

#[test]
fn text_is_in_alphabetical_order() {
    let lines = vec![
        "[zeta]".to_string(),
        "b=2".to_string(),
        "a=1".to_string(),
        "# gone".to_string(),
        "".to_string(),
        "[Alpha]".to_string(),
        "k=v".to_string(),
        "[empty]".to_string(),
    ];
    let ini = Ini::build_struct(lines).unwrap();
    assert_eq!(
        ini.render(LineEnding::Lf),
        "[Alpha]\nk=v\n[empty]\n[zeta]\na=1\nb=2\n"
    );
    assert_eq!(
        ini.render(LineEnding::CrLf),
        "[Alpha]\r\nk=v\r\n[empty]\r\n[zeta]\r\na=1\r\nb=2\r\n"
    );
}

#[test]
fn to_string_goes_by_the_platform() {
    let mut ini = Ini::empty(String::new());
    assert_eq!(ini.to_string("linux"), Ok(String::new()));
    ini.set("s", "k", "v");
    assert_eq!(ini.to_string("linux"), Ok("[s]\nk=v\n".to_string()));
    assert_eq!(ini.to_string("windows"), Ok("[s]\r\nk=v\r\n".to_string()));
    assert_eq!(ini.to_string("macos"), Err(IniError::UnsupportedPlatform));
    assert_eq!(ini.to_string("Linux"), Err(IniError::UnsupportedPlatform));
    assert_eq!(ini.to_string(""), Err(IniError::UnsupportedPlatform));
}

#[test]
fn save_needs_a_bound_file() {
    let mut ini = Ini::from_string("[s]\nk=v\n".to_string()).unwrap();
    assert_eq!(ini.save("linux"), Err(IniError::NoBoundPath));
    assert_eq!(ini.save("macos"), Err(IniError::NoBoundPath));
    ini.config_file = "out.ini".to_string();
    assert_eq!(ini.save("linux"), Ok("[s]\nk=v\n".to_string()));
    assert_eq!(ini.save("macos"), Err(IniError::UnsupportedPlatform));
}

#[test]
fn written_text_reads_back_as_the_same_document() {
    let ini = Ini::from_string(sample_text()).unwrap();
    let text = ini.to_string("linux").unwrap();
    assert_eq!(
        text,
        "[General]\napp_name=MyApp\nversion= 1.2\n[Paths]\ndata=/srv/data\nlog=/var/log/myapp\n"
    );
    let again = Ini::from_string(text).unwrap();
    assert_eq!(again.config_map, ini.config_map);
}

#[test]
fn from_string_cuts_the_text_into_lines() {
    let ini = Ini::from_string("[a]\n\n\nk=v\n[b]".to_string()).unwrap();
    assert_eq!(ini.config_map.keys, vec!["a".to_string(), "b".to_string()]);
    assert_eq!(ini.get("a", "k"), Some("v".to_string()));
    let empty = Ini::from_string(String::new()).unwrap();
    assert!(empty.config_map.keys.is_empty());
}

#[test]
fn a_name_with_brackets_in_it_reads_back() {
    let ini = Ini::build_struct(vec!["[a]b]c".to_string(), "k=v".to_string()]).unwrap();
    assert_eq!(ini.config_map.keys, vec!["a]bc".to_string()]);
    let text = ini.render(LineEnding::Lf);
    assert_eq!(text, "[a]bc]\nk=v\n");
    let again = Ini::from_string(text).unwrap();
    assert_eq!(again.config_map, ini.config_map);
}

#[test]
fn a_name_that_ends_in_brackets_reads_back() {
    let ini = Ini::build_struct(vec!["[a]b]]".to_string(), "k=v".to_string()]).unwrap();
    assert_eq!(ini.config_map.keys, vec!["a]b]".to_string()]);
    let again = Ini::from_string(ini.render(LineEnding::Lf)).unwrap();
    assert_eq!(again.config_map, ini.config_map);
}

#[test]
fn odd_texts_read_back() {
    let texts = [
        "[a]b]c\nk=v\n",
        "[ [x] ] \n=\n a = b \n[]\n[k=v\n",
        "[s]\nk=v\r\n[t\r]\r\n",
        "[]]\n]=[\n[[]\n;c\n#d\n\n x=#\n",
    ];
    for t in texts {
        let first = Ini::from_string(t.to_string()).unwrap();
        let again = Ini::from_string(first.to_string("linux").unwrap()).unwrap();
        assert_eq!(again.config_map, first.config_map);
    }
}

#[test]
fn open_section_keeps_what_is_there() {
    let mut ini = Ini::empty(String::new());
    ini.open_section("s");
    assert_eq!(ini.config_map.keys, vec!["s".to_string()]);
    assert!(ini.config_map.values[0].keys.is_empty());
    ini.set("s", "k", "v");
    ini.open_section("s");
    assert_eq!(ini.get("s", "k"), Some("v".to_string()));
    assert_eq!(ini.config_map.keys.len(), 1);
}

#[test]
fn is_wf_tells_documents_set_by_hand_apart() {
    let mut ini = sample();
    assert!(ini.is_wf());
    assert!(Ini::empty(String::new()).is_wf());
    ini.config_map.keys.swap(0, 1);
    assert!(!ini.is_wf());
    ini.config_map.keys.swap(0, 1);
    assert!(ini.is_wf());
    ini.config_map.values[1].keys.swap(0, 1);
    assert!(!ini.is_wf());
    ini.config_map.values[1].keys.swap(0, 1);
    ini.config_map.values[0].values.pop();
    assert!(!ini.is_wf());
    let mut twice = sample();
    twice.config_map.keys[1] = "General".to_string();
    assert!(!twice.is_wf());
}

#[test]
fn line_endings_by_platform() {
    assert_eq!(LineEnding::for_platform("linux"), Some(LineEnding::Lf));
    assert_eq!(LineEnding::for_platform("windows"), Some(LineEnding::CrLf));
    assert_eq!(LineEnding::for_platform("freebsd"), None);
    assert_eq!(LineEnding::for_platform("linu"), None);
    assert_eq!(LineEnding::for_platform("linuxx"), None);
    assert_eq!(LineEnding::Lf.as_str(), "\n");
    assert_eq!(LineEnding::CrLf.as_str(), "\r\n");
}

#[test]
fn from_lines_reads_the_lines_or_fails() {
    assert_eq!(Ini::from_lines(None), Err(IniError::IoFailure));
    let ini = Ini::from_lines(Some(vec!["[a]".to_string(), "k=v".to_string()])).unwrap();
    assert_eq!(ini.get("a", "k"), Some("v".to_string()));
    assert_eq!(
        Ini::from_lines(Some(vec!["k=v".to_string()])),
        Err(IniError::Parse(ParseError::KvpBeforeSection))
    );
}

#[test]
fn the_same_content_is_laid_out_the_same() {
    let mut a = Ini::empty(String::new());
    a.set("b", "y", "2");
    a.set("a", "x", "1");
    a.set("b", "x", "3");
    let mut b = Ini::empty(String::new());
    b.set("a", "x", "1");
    b.set("b", "x", "0");
    b.set("c", "z", "9");
    b.set("b", "y", "2");
    b.set("b", "x", "3");
    b.remove_section("c");
    assert_eq!(a.config_map, b.config_map);
    assert_eq!(a.render(LineEnding::Lf), b.render(LineEnding::Lf));
    assert_eq!(a.render(LineEnding::Lf), "[a]\nx=1\n[b]\nx=3\ny=2\n");
}
