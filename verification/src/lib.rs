//! A small HTML toolkit: parsing, CSS selectors, forms, text extraction and
//! Cloudflare challenge handling, with its behaviour stated and proved.

pub mod chars;
pub mod parser;
pub mod selector;
pub mod forms;
pub mod text;
pub mod cloudflare;

pub use cloudflare::{
    can_extract_scripts, handle_cloudflare_response, is_cloudflare_challenge, solve_challenge, ChallengeResult,
    ChallengeSolver, CloudflareCookie, CloudflareHandler, CloudflareStep, JsCall, SolveStep,
};
pub use forms::{find_forms, find_login_form, Form, FormInput};
pub use parser::{parse, Document, Node, NodeData};
pub use selector::{select, Selector};
pub use text::{extract_links, extract_text, extract_title};
