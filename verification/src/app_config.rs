//! The settings of the tokenizer program and the text it works on.

use vstd::prelude::*;

verus! {

/// The settings of the tokenizer program.
pub struct AppConfig {
    /// The file to read the text from; standard input when unset.
    pub text_file: Option<String>,
}

impl AppConfig {
    /// The default settings: no file.
    pub fn new() -> (c: AppConfig)
        ensures
            c.text_file is None,
    {
        AppConfig { text_file: None }
    }
}

/// The text that the tokenizer program works on.
pub struct TextSource {
    text: String,
}

impl TextSource {
    /// The text held.
    pub closed spec fn text(&self) -> Seq<char> {
        self.text@
    }

    /// A source holding `text`, as read from wherever the settings say.
    pub fn from_text(text: String) -> (s: TextSource)
        ensures
            s.text() == text@,
    {
        TextSource { text }
    }

    /// The text.
    pub fn get_text(&self) -> (t: &str)
        ensures
            t@ == self.text(),
    {
        self.text.as_str()
    }
}

} // verus!
