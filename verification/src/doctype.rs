//! Language profiles: which lexical rules apply to a file, by its name.
use vstd::prelude::*;
use crate::search::to_chars;

verus! {

/// The lexical rules that highlighting applies to a row.
///
/// Comments that end with the line start with `//`, comments that may run
/// over several lines stand between `/*` and `*/`, string literals stand
/// between double quotes and character literals between single quotes. Each
/// flag switches one of these classes on. A keyword is a word of one of the
/// two lists; each word is given as its characters.
#[derive(Debug)]
pub struct HighlightingOptions {
    pub numbers: bool,
    pub strings: bool,
    pub characters: bool,
    pub comments: bool,
    pub multiline_comments: bool,
    pub primary_keywords: Vec<Vec<char>>,
    pub secondary_keywords: Vec<Vec<char>>,
}

/// The mathematical content of [`HighlightingOptions`].
pub ghost struct HighlightingRules {
    pub numbers: bool,
    pub strings: bool,
    pub characters: bool,
    pub comments: bool,
    pub multiline_comments: bool,
    pub primary_keywords: Seq<Seq<char>>,
    pub secondary_keywords: Seq<Seq<char>>,
}

/// The words of a keyword list, each as a sequence of characters.
pub open spec fn words_of(list: Vec<Vec<char>>) -> Seq<Seq<char>> {
    Seq::new(list@.len(), |i: int| list@[i]@)
}

impl View for HighlightingOptions {
    type V = HighlightingRules;

    open spec fn view(&self) -> HighlightingRules {
        HighlightingRules {
            numbers: self.numbers,
            strings: self.strings,
            characters: self.characters,
            comments: self.comments,
            multiline_comments: self.multiline_comments,
            primary_keywords: words_of(self.primary_keywords),
            secondary_keywords: words_of(self.secondary_keywords),
        }
    }
}

/// The rules that classify nothing: every character is plain text.
pub open spec fn no_rules() -> HighlightingRules {
    HighlightingRules {
        numbers: false,
        strings: false,
        characters: false,
        comments: false,
        multiline_comments: false,
        primary_keywords: Seq::empty(),
        secondary_keywords: Seq::empty(),
    }
}

/// The rules for Rust source text.
pub open spec fn rust_rules() -> HighlightingRules {
    HighlightingRules {
        numbers: true,
        strings: true,
        characters: true,
        comments: true,
        multiline_comments: true,
        primary_keywords: seq![
            "as"@, "break"@, "continue"@, "else"@, "enum"@, "fn"@, "for"@, "if"@, "impl"@, "in"@,
            "let"@, "loop"@, "match"@, "mod"@, "mut"@, "pub"@, "return"@, "struct"@, "trait"@,
            "use"@, "while"@,
        ],
        secondary_keywords: seq![
            "bool"@, "char"@, "i8"@, "i16"@, "i32"@, "i64"@, "isize"@, "str"@, "u8"@, "u16"@,
            "u32"@, "u64"@, "usize"@,
        ],
    }
}

impl Default for HighlightingOptions {
    /// The options that switch every class off.
    fn default() -> (options: HighlightingOptions)
        ensures
            options@ == no_rules(),
    {
        let options = HighlightingOptions {
            numbers: false,
            strings: false,
            characters: false,
            comments: false,
            multiline_comments: false,
            primary_keywords: Vec::new(),
            secondary_keywords: Vec::new(),
        };
        assert(options@.primary_keywords =~= Seq::empty());
        assert(options@.secondary_keywords =~= Seq::empty());
        options
    }
}

/// Appends `word` to a keyword list.
fn push_word(list: &mut Vec<Vec<char>>, word: &str)
    ensures
        words_of(*final(list)) == words_of(*old(list)).push(word@),
{
    list.push(to_chars(word));
    assert(words_of(*list) =~= words_of(*old(list)).push(word@));
}

/// The options for Rust source text.
fn rust_options() -> (options: HighlightingOptions)
    ensures
        options@ == rust_rules(),
{
    let mut primary: Vec<Vec<char>> = Vec::new();
    assert(words_of(primary) =~= Seq::empty());
    push_word(&mut primary, "as");
    push_word(&mut primary, "break");
    push_word(&mut primary, "continue");
    push_word(&mut primary, "else");
    push_word(&mut primary, "enum");
    push_word(&mut primary, "fn");
    push_word(&mut primary, "for");
    push_word(&mut primary, "if");
    push_word(&mut primary, "impl");
    push_word(&mut primary, "in");
    push_word(&mut primary, "let");
    push_word(&mut primary, "loop");
    push_word(&mut primary, "match");
    push_word(&mut primary, "mod");
    push_word(&mut primary, "mut");
    push_word(&mut primary, "pub");
    push_word(&mut primary, "return");
    push_word(&mut primary, "struct");
    push_word(&mut primary, "trait");
    push_word(&mut primary, "use");
    push_word(&mut primary, "while");
    assert(words_of(primary) =~= rust_rules().primary_keywords);
    let mut secondary: Vec<Vec<char>> = Vec::new();
    assert(words_of(secondary) =~= Seq::empty());
    push_word(&mut secondary, "bool");
    push_word(&mut secondary, "char");
    push_word(&mut secondary, "i8");
    push_word(&mut secondary, "i16");
    push_word(&mut secondary, "i32");
    push_word(&mut secondary, "i64");
    push_word(&mut secondary, "isize");
    push_word(&mut secondary, "str");
    push_word(&mut secondary, "u8");
    push_word(&mut secondary, "u16");
    push_word(&mut secondary, "u32");
    push_word(&mut secondary, "u64");
    push_word(&mut secondary, "usize");
    assert(words_of(secondary) =~= rust_rules().secondary_keywords);
    HighlightingOptions {
        numbers: true,
        strings: true,
        characters: true,
        comments: true,
        multiline_comments: true,
        primary_keywords: primary,
        secondary_keywords: secondary,
    }
}

/// The language profile of a document: a display name and the rules that
/// highlighting applies.
#[derive(Debug)]
pub struct DocType {
    name: String,
    hl_opts: HighlightingOptions,
}

/// The mathematical content of a [`DocType`].
pub ghost struct Profile {
    pub name: Seq<char>,
    pub rules: HighlightingRules,
}

impl View for DocType {
    type V = Profile;

    closed spec fn view(&self) -> Profile {
        Profile { name: self.name@, rules: self.hl_opts@ }
    }
}

/// Whether a file name ends in `.rs`.
pub open spec fn is_rust_file_name(file_name: Seq<char>) -> bool {
    let n = file_name.len() as int;
    n >= 3 && file_name[n - 3] == '.' && file_name[n - 2] == 'r' && file_name[n - 1] == 's'
}

/// The profile of a file, by its name: Rust for a name that ends in `.rs`,
/// and otherwise the profile without a file type, which classifies nothing.
pub open spec fn classify(file_name: Seq<char>) -> Profile {
    if is_rust_file_name(file_name) {
        Profile { name: "Rust"@, rules: rust_rules() }
    } else {
        Profile { name: "No filetype"@, rules: no_rules() }
    }
}

impl DocType {
    /// The profile of the file called `file_name`.
    pub fn from(file_name: &str) -> (doc_type: DocType)
        ensures
            doc_type@ == classify(file_name@),
    {
        let chars = to_chars(file_name);
        let n = chars.len();
        if n >= 3 && chars[n - 3] == '.' && chars[n - 2] == 'r' && chars[n - 1] == 's' {
            DocType { name: "Rust".to_owned(), hl_opts: rust_options() }
        } else {
            DocType::default()
        }
    }

    /// The display name of the language.
    pub fn name(&self) -> (name: String)
        ensures
            name@ == self@.name,
    {
        self.name.clone()
    }

    /// The rules that highlighting applies to this language.
    pub fn highlightingoptions(&self) -> (options: &HighlightingOptions)
        ensures
            options@ == self@.rules,
    {
        &self.hl_opts
    }
}

impl Default for DocType {
    /// The profile without a file type.
    fn default() -> (doc_type: DocType)
        ensures
            doc_type@ == (Profile { name: "No filetype"@, rules: no_rules() }),
    {
        DocType { name: "No filetype".to_owned(), hl_opts: HighlightingOptions::default() }
    }
}

} // verus!
