use vstd::prelude::*;

use crate::template::TemplateFault;
use crate::text::{chars_of, push_all, string_of};

verus! {

/// Why a template was refused.
#[derive(Debug)]
pub enum TemplateError {
    Empty,
    Unclosed,
    EmptyPlaceholder,
    Unknown(String),
    MissingTitle,
}

impl TemplateError {
    pub open spec fn fault(&self) -> TemplateFault {
        match self {
            TemplateError::Empty => TemplateFault::Empty,
            TemplateError::Unclosed => TemplateFault::Unclosed,
            TemplateError::EmptyPlaceholder => TemplateFault::EmptyPlaceholder,
            TemplateError::Unknown(s) => TemplateFault::Unknown(s@),
            TemplateError::MissingTitle => TemplateFault::MissingTitle,
        }
    }

    /// The reason, in the words shown to the user.
    pub open spec fn text(&self) -> Seq<char> {
        match self {
            TemplateError::Empty => "テンプレートが空です"@,
            TemplateError::Unclosed => "閉じられていないプレースホルダーがあります"@,
            TemplateError::EmptyPlaceholder => "空のプレースホルダーがあります"@,
            TemplateError::Unknown(name) => "未知のプレースホルダー: {"@ + name@ + "}"@,
            TemplateError::MissingTitle => "{title} は必須です"@,
        }
    }

    pub fn message(&self) -> (r: String)
        ensures
            r@ == self.text(),
    {
        match self {
            TemplateError::Empty => text("テンプレートが空です"),
            TemplateError::Unclosed => text("閉じられていないプレースホルダーがあります"),
            TemplateError::EmptyPlaceholder => text("空のプレースホルダーがあります"),
            TemplateError::Unknown(name) => {
                let head = concat("未知のプレースホルダー: {", name.as_str());
                concat(head.as_str(), "}")
            },
            TemplateError::MissingTitle => text("{title} は必須です"),
        }
    }
}

/// Why an import was refused before anything was written.
#[derive(Clone, Copy, Debug, PartialEq, Eq, Structural)]
pub enum ImportFailure {
    NotADirectory,
    NoImages,
    NoLibraryRoot,
    NoTemplate,
    Overlap,
}

impl ImportFailure {
    /// The reason, in the words shown to the user.
    pub open spec fn text(&self) -> Seq<char> {
        match self {
            ImportFailure::NotADirectory => "ソースパスがディレクトリではありません"@,
            ImportFailure::NoImages => "フォルダ内に画像ファイルがありません"@,
            ImportFailure::NoLibraryRoot => "ライブラリルートが設定されていません"@,
            ImportFailure::NoTemplate => "ディレクトリテンプレートが設定されていません"@,
            ImportFailure::Overlap => "取り込み元と取り込み先が重複しています"@,
        }
    }

    pub fn message(&self) -> (r: String)
        ensures
            r@ == self.text(),
    {
        match self {
            ImportFailure::NotADirectory => text("ソースパスがディレクトリではありません"),
            ImportFailure::NoImages => text("フォルダ内に画像ファイルがありません"),
            ImportFailure::NoLibraryRoot => text("ライブラリルートが設定されていません"),
            ImportFailure::NoTemplate => text("ディレクトリテンプレートが設定されていません"),
            ImportFailure::Overlap => text("取り込み元と取り込み先が重複しています"),
        }
    }
}

/// The errors of the library's operations.
#[derive(Debug)]
pub enum AppError {
    Io(String),
    Image(String),
    Database(String),
    WebpEncode,
    NotFound,
    InvalidTemplate(TemplateError),
    ImportError(ImportFailure),
    RelocationError(String),
}

impl AppError {
    /// The error as the user reads it.
    pub open spec fn text(&self) -> Seq<char> {
        match self {
            AppError::Io(m) => "IO error: "@ + m@,
            AppError::Image(m) => "Image error: "@ + m@,
            AppError::Database(m) => "Database error: "@ + m@,
            AppError::WebpEncode => "WebP encode failed"@,
            AppError::NotFound => "Not found"@,
            AppError::InvalidTemplate(e) => "Invalid template: "@ + e.text(),
            AppError::ImportError(f) => "Import error: "@ + f.text(),
            AppError::RelocationError(m) => "Relocation error: "@ + m@,
        }
    }

    pub fn message(&self) -> (r: String)
        ensures
            r@ == self.text(),
    {
        match self {
            AppError::Io(m) => concat("IO error: ", m.as_str()),
            AppError::Image(m) => concat("Image error: ", m.as_str()),
            AppError::Database(m) => concat("Database error: ", m.as_str()),
            AppError::WebpEncode => text("WebP encode failed"),
            AppError::NotFound => text("Not found"),
            AppError::InvalidTemplate(e) => {
                let m = e.message();
                concat("Invalid template: ", m.as_str())
            },
            AppError::ImportError(f) => {
                let m = f.message();
                concat("Import error: ", m.as_str())
            },
            AppError::RelocationError(m) => concat("Relocation error: ", m.as_str()),
        }
    }
}

/// A string holding the characters of `a`.
pub fn text(a: &str) -> (r: String)
    ensures
        r@ == a@,
{
    let v = chars_of(a);
    string_of(v.as_slice())
}

/// `a` followed by `b`.
pub fn concat(a: &str, b: &str) -> (r: String)
    ensures
        r@ == a@ + b@,
{
    let mut v = chars_of(a);
    let w = chars_of(b);
    push_all(&mut v, w.as_slice());
    string_of(v.as_slice())
}

} // verus!
