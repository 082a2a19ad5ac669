mod ids;
pub mod collection;
pub mod notetype;
pub mod template;
pub mod text;

pub use ids::NotetypeId;
pub use ids::TimestampSecs;
pub use ids::Usn;
pub use collection::Collection;
pub use collection::CollectionState;
pub use collection::Storage;
pub use ids::DeckId;
pub use notetype::AnkiError;
pub use notetype::CardRequirement;
pub use notetype::CardRequirementKind;
pub use notetype::CardTemplate;
pub use notetype::NoteField;
pub use notetype::Notetype;
pub use notetype::NotetypeConfig;
pub use notetype::NotetypeKind;
pub use notetype::Note;
pub use notetype::TemplateSaveError;
pub use template::FieldRenames;
pub use template::FieldRequirements;
pub use template::ParsedTemplate;
pub use template::TemplateToken;
pub use template::parse;
pub use collection::stock_notetype;
