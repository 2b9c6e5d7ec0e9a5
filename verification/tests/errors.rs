use nbedit::cli::{CellTypeArg, CellTypeFilter};
use nbedit::error::{AppExit, NbError};

#[test]
fn error_messages_name_the_problem() {
    assert_eq!(NbError::FileNotFound("a.ipynb".into()).message(), "File not found: a.ipynb");
    assert_eq!(
        NbError::InvalidFormat("bad json".into()).message(),
        "Invalid notebook format: bad json"
    );
    assert_eq!(
        NbError::IndexOutOfRange(7, 3).message(),
        "Cell index 7 is out of range (notebook has 3 cells)"
    );
    assert_eq!(NbError::UsageError("no".into()).message(), "Usage error: no");
    let exit = AppExit::new(124, "late".to_string());
    assert_eq!(exit.code(), 124);
    assert_eq!(exit.message(), "late");
}

#[test]
fn cell_type_options_name_nbformat_types() {
    assert_eq!(CellTypeArg::Code.as_str(), "code");
    assert_eq!(CellTypeArg::Markdown.as_str(), "markdown");
    assert_eq!(CellTypeArg::Raw.as_str(), "raw");
    assert_eq!(CellTypeFilter::Code.as_str(), "code");
    assert_eq!(CellTypeFilter::Markdown.as_str(), "markdown");
    assert_eq!(CellTypeFilter::Raw.as_str(), "raw");
}
