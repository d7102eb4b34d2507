pub mod text_editor;
