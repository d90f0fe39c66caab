//! Rendering handlebars templates, without html escaping: the output goes to
//! a terminal.

use vstd::prelude::*;

verus! {

#[verifier::external_type_specification]
#[verifier::external_body]
pub struct ExHandlebars<'reg>(handlebars::Handlebars<'reg>);

#[verifier::external_type_specification]
#[verifier::external_body]
pub struct ExJsonValue(serde_json::Value);

/// `handlebars::Handlebars::new`: a registry without templates.
#[verifier::external_body]
fn new_registry() -> handlebars::Handlebars<'static> {
    handlebars::Handlebars::new()
}

/// `Handlebars::register_escape_fn` with `handlebars::no_escape`: rendered
/// values come out as they are.
#[verifier::external_body]
fn disable_escaping(registry: &mut handlebars::Handlebars<'static>) {
    registry.register_escape_fn(handlebars::no_escape);
}

/// Renders templates.
pub struct HandlebarsRenderer {
    handlebars_client: handlebars::Handlebars<'static>,
}

impl HandlebarsRenderer {
    /// A renderer that does not escape html.
    pub fn new() -> HandlebarsRenderer {
        let mut handlebars_client = new_registry();
        disable_escaping(&mut handlebars_client);
        HandlebarsRenderer { handlebars_client }
    }

    /// `handlebars::Handlebars::render_template` of `template` with `data`:
    /// the rendered text, or the message of the render error. What the text
    /// holds is left to handlebars and not stated here.
    #[verifier::external_body]
    pub fn render(&self, template: &str, data: &serde_json::Value) -> Result<String, String> {
        self.handlebars_client.render_template(template, data).map_err(|err| err.to_string())
    }
}

} // verus!
