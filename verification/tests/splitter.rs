use nailgun::parsed_jvm_command_lines::{ParseError, ParsedJVMCommandLines};

fn strings(items: &[&str]) -> Vec<String> {
    items.iter().map(|s| s.to_string()).collect()
}

fn split(items: &[&str]) -> Result<ParsedJVMCommandLines, ParseError> {
    ParsedJVMCommandLines::parse_command_lines(&strings(items))
}

fn parsed(nailgun: &[&str], main: &str, client: &[&str]) -> ParsedJVMCommandLines {
    ParsedJVMCommandLines {
        nailgun_args: strings(nailgun),
        client_args: strings(client),
        client_main_class: main.to_string(),
    }
}

#[test]
fn splits_the_documented_command_line() {
    assert_eq!(
        split(&["-cp", "libs/a.jar", "-Xmx512m", "com.example.Main", "--flag", "x"]),
        Ok(parsed(
            &["-cp", "libs/a.jar", "-Xmx512m"],
            "com.example.Main",
            &["--flag", "x"]
        ))
    );
}

#[test]
fn splits_with_flags_before_the_classpath() {
    assert_eq!(
        split(&["-Xmx1g", "-Dfoo=bar", "-classpath", "a.jar:b.jar", "org.Main"]),
        Ok(parsed(
            &["-Xmx1g", "-Dfoo=bar", "-classpath", "a.jar:b.jar"],
            "org.Main",
            &[]
        ))
    );
}

#[test]
fn arguments_before_the_classpath_need_not_be_flags() {
    assert_eq!(
        split(&["java", "-cp", "a.jar", "Main", "arg"]),
        Ok(parsed(&["java", "-cp", "a.jar"], "Main", &["arg"]))
    );
}

#[test]
fn argument_files_count_as_flags() {
    assert_eq!(
        split(&["-cp", "a.jar", "@options", "-ea", "Main", "@not-a-flag-here", "-cp"]),
        Ok(parsed(
            &["-cp", "a.jar", "@options", "-ea"],
            "Main",
            &["@not-a-flag-here", "-cp"]
        ))
    );
}

#[test]
fn the_parts_put_together_are_the_command_line() {
    let args = strings(&["-Xss1m", "-cp", "x.jar", "-Da=b", "a.B", "one", "-two", "three"]);
    let p = ParsedJVMCommandLines::parse_command_lines(&args).unwrap();
    let mut again = p.nailgun_args.clone();
    again.push(p.client_main_class.clone());
    again.extend(p.client_args.iter().cloned());
    assert_eq!(again, args);
}

#[test]
fn no_classpath_flag() {
    assert_eq!(split(&[]), Err(ParseError::NoClasspathFlag));
    assert_eq!(
        split(&["-Xmx1g", "com.example.Main"]),
        Err(ParseError::NoClasspathFlag)
    );
    assert_eq!(split(&["-cpx", "a.jar", "Main"]), Err(ParseError::NoClasspathFlag));
}

#[test]
fn no_classpath_value() {
    assert_eq!(split(&["-cp"]), Err(ParseError::NoClasspathValue));
    assert_eq!(split(&["-Xmx1g", "-classpath"]), Err(ParseError::NoClasspathValue));
}

#[test]
fn classpath_value_that_is_a_flag() {
    assert_eq!(
        split(&["-cp", "-Xmx1g", "Main"]),
        Err(ParseError::MalformedClasspathValue("-Xmx1g".to_string()))
    );
    assert_eq!(
        split(&["-cp", "@file", "Main"]),
        Err(ParseError::MalformedClasspathValue("@file".to_string()))
    );
    assert_eq!(
        split(&["-cp", "-cp", "a.jar", "Main"]),
        Err(ParseError::MalformedClasspathValue("-cp".to_string()))
    );
}

#[test]
fn no_main_class() {
    assert_eq!(split(&["-cp", "a.jar"]), Err(ParseError::NoMainClass));
    assert_eq!(split(&["-cp", "a.jar", "-Xmx1g"]), Err(ParseError::NoMainClass));
    assert_eq!(
        split(&["-cp", "a.jar", "-Xmx1g", "-cp", "b.jar", "Main"]),
        Err(ParseError::NoMainClass)
    );
}

#[test]
fn an_empty_argument_is_no_flag() {
    assert_eq!(
        split(&["-cp", "", "", "x"]),
        Ok(parsed(&["-cp", ""], "", &["x"]))
    );
}

#[test]
fn parse_error_messages() {
    assert_eq!(ParseError::NoClasspathFlag.message(), "No classpath flag found.");
    assert_eq!(ParseError::NoClasspathValue.message(), "No classpath value found!");
    assert_eq!(
        ParseError::MalformedClasspathValue("-x".to_string()).message(),
        "Classpath value has incorrect formatting -x."
    );
    assert_eq!(ParseError::NoMainClass.message(), "No main class provided.");
}
