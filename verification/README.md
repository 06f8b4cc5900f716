# swift_design

The verified core of a studio that turns a request into designs, documents,
and mailings: it plans a turn, builds the prompts, reads the replies, repairs
and polishes what comes back, and exports the result.

Every function in `src/` carries a contract that Verus proves. What the library
takes from outside crates (base64, serde_json, sha2, zip) and from std stands behind
a few wrappers whose contracts are stated next to the call.

| Part | Modules |
| --- | --- |
| Text, order, time | `text`, `order`, `time`, `markup`, `encoding`, `json` |
| Artifacts | `model`, `patch`, `document_patch`, `mailing_patch` |
| A turn | `conversation`, `generation`, `rounds`, `candidates`, `attachments` |
| Replies and previews | `stream`, `continuation`, `design_generation`, `document_generation`, `mailing_generation` |
| Edits and prompts | `edit_focus`, `focus_view`, `prompts`, `instructions` |
| Email export | `css`, `dom`, `selector`, `style`, `email_html` |
| Word export | `blocks`, `image`, `pictures`, `docx`, `archive` |
| Pages and downloads | `document_render`, `uploads`, `export`, `offline` |
| Stores | `files`, `history`, `events` |

`app/` is the server around it: routes, files, fonts, and the loops that talk
to the model. `tests/` runs the library on concrete values.
