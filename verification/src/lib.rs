//! The verified core of a design studio server.

pub mod archive;
pub mod attachments;
pub mod blocks;
pub mod candidates;
pub mod continuation;
pub mod conversation;
pub mod css;
pub mod dom;
pub mod design_generation;
pub mod document_generation;
pub mod document_patch;
pub mod document_render;
pub mod docx;
pub mod edit_focus;
pub mod email_html;
pub mod encoding;
pub mod events;
pub mod export;
pub mod files;
pub mod focus_view;
pub mod generation;
pub mod history;
pub mod image;
pub mod instructions;
pub mod json;
pub mod mailing_generation;
pub mod mailing_patch;
pub mod markup;
pub mod model;
pub mod nesting;
pub mod offline;
pub mod order;
pub mod patch;
pub mod pictures;
pub mod prompts;
pub mod reading;
pub mod rounds;
pub mod selector;
pub mod stream;
pub mod style;
pub mod text;
pub mod time;
pub mod uploads;
pub mod word_style;
