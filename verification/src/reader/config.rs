//! Configuration of a reader.

use vstd::prelude::*;

verus! {

/// A struct that holds a parser configuration.
///
/// Current parser configuration can be retrieved by calling `Reader::config()` and changed by
/// changing properties of the object returned by a call to `Reader::config_mut()`.
#[derive(Debug, Clone, Copy, PartialEq, Eq, Structural)]
#[non_exhaustive]
pub struct Config {
    /// Whether lone ampersand character (without a paired semicolon) should be allowed in
    /// textual content. Unless enabled, in case of a dangling ampersand, an error is returned
    /// from read methods.
    ///
    /// Default: `false`
    pub allow_dangling_amp: bool,
    /// Whether unmatched closing tag names should be allowed. Unless enabled, in case of a
    /// dangling end tag, an error is returned from read methods.
    ///
    /// When set to `true`, it won't check if a closing tag has a corresponding opening tag at
    /// all. For example, `<a></a></b>` will be permitted.
    ///
    /// Default: `false`
    pub allow_unmatched_ends: bool,
    /// Whether comments should be validated. If enabled, in case of invalid comment an error is
    /// returned from read methods.
    ///
    /// When set to `true`, every comment will be checked for not containing `--`, which is not
    /// allowed in XML comments.
    ///
    /// Default: `false`
    pub check_comments: bool,
    /// Whether mismatched closing tag names should be detected. If enabled, in case of mismatch
    /// an error is returned from read methods.
    ///
    /// When set to `false`, it won't check if a closing tag matches the corresponding opening
    /// tag. For example, `<mytag></different_tag>` will be permitted.
    ///
    /// Default: `true`
    pub check_end_names: bool,
    /// Whether empty elements should be split into a start and an end event.
    ///
    /// When set to `true`, a self-closing tag like `<tag/>` is expanded into a start event
    /// followed by an end event.
    ///
    /// Default: `false`
    pub expand_empty_elements: bool,
    /// Whether trailing whitespace after the markup name are trimmed in closing tags `</a >`.
    ///
    /// Note that if set to `false` and `check_end_names` is `true` the comparison of markup
    /// names is going to fail if a closing tag contains trailing whitespace.
    ///
    /// Default: `true`
    pub trim_markup_names_in_closing_tags: bool,
    /// Whether whitespace before character data should be removed.
    ///
    /// When set to `true`, leading whitespace is trimmed in text events. If after that the
    /// event is empty it will not be emitted.
    ///
    /// Default: `false`
    pub trim_text_start: bool,
    /// Whether whitespace after character data should be removed.
    ///
    /// When set to `true`, trailing whitespace is trimmed in text events. If after that the
    /// event is empty it will not be emitted.
    ///
    /// Default: `false`
    pub trim_text_end: bool,
}

/// The configuration that a reader starts with.
pub open spec fn default_config() -> Config {
    Config {
        allow_dangling_amp: false,
        allow_unmatched_ends: false,
        check_comments: false,
        check_end_names: true,
        expand_empty_elements: false,
        trim_markup_names_in_closing_tags: true,
        trim_text_start: false,
        trim_text_end: false,
    }
}

impl Config {
    /// Set both `trim_text_start` and `trim_text_end` to the same value.
    pub fn trim_text(&mut self, trim: bool)
        ensures
            *final(self) == (Config { trim_text_start: trim, trim_text_end: trim, ..*old(self) }),
    {
        self.trim_text_start = trim;
        self.trim_text_end = trim;
    }

    /// Turn on or off all checks for well-formedness. Currently it is that settings:
    /// - `check_comments`
    /// - `check_end_names`
    pub fn enable_all_checks(&mut self, enable: bool)
        ensures
            *final(self) == (Config {
                check_comments: enable,
                check_end_names: enable,
                ..*old(self)
            }),
    {
        self.check_comments = enable;
        self.check_end_names = enable;
    }
}

impl Default for Config {
    fn default() -> (r: Self)
        ensures
            r == default_config(),
    {
        Config {
            allow_dangling_amp: false,
            allow_unmatched_ends: false,
            check_comments: false,
            check_end_names: true,
            expand_empty_elements: false,
            trim_markup_names_in_closing_tags: true,
            trim_text_start: false,
            trim_text_end: false,
        }
    }
}

} // verus!
