use serde_ccl::de::{Deserializer, KeyValueAccess};
use serde_ccl::parser::StrParser;
use serde_ccl::Error;

const CCL: &str = r"
theme = light
";

const CCL_ERR: &str = r"
theme = invalid
";

pub enum Theme {
    Light,
    Dark,
}

impl TryFrom<&str> for Theme {
    type Error = &'static str;

    fn try_from(s: &str) -> Result<Self, Self::Error> {
        Ok(match s {
            "light" => Self::Light,
            "dark" => Self::Dark,
            _ => return Err("invalid variant"),
        })
    }
}

struct Config {
    theme: Theme,
}

fn config(input: &str) -> Result<Config, Error> {
    let mut de = Deserializer::new(StrParser::new(input));
    let enclosing = de.last_key_bookmark();
    let access = KeyValueAccess::new(&mut de);
    let mut theme = None;
    while access.next_key(&mut de) {
        let key = de.parse()?.1.as_str().to_owned();
        access.next_value(&mut de);
        let value = de.parse()?.1.as_str().to_owned();
        if key == "theme" {
            match Theme::try_from(value.as_str()) {
                Ok(found) => theme = Some(found),
                Err(message) => {
                    return Err(de.locate_error(Error::custom(message.to_owned()), enclosing))
                }
            }
        }
    }
    match theme {
        Some(theme) => Ok(Config { theme }),
        None => Err(de.locate_error(Error::custom("missing field `theme`".to_owned()), enclosing)),
    }
}

#[test]
fn test_enum_from_str() {
    let config_ok = config(CCL).unwrap();
    assert!(matches!(config_ok.theme, Theme::Light));

    let config_err = config(CCL_ERR);
    assert!(config_err.is_err());
}

#[test]
fn enum_from_str_reports_the_message_at_the_enclosing_key() {
    let error = match config(CCL_ERR) {
        Err(error) => error,
        Ok(_) => panic!("the variant is not known"),
    };
    assert_eq!(error.description(), "invalid variant");
    assert_eq!((error.line(), error.column()), (1, 1));
    assert!(matches!(config("theme = dark").unwrap().theme, Theme::Dark));
    assert!(config("").is_err());
}
