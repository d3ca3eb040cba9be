# eml

Turns an electronic mail message into a small document model:
the subject as a heading, a paragraph with sender, recipients, copies and date,
then the paragraphs of the body. Plain text is preferred; a message that holds
HTML alone is refused rather than shown as markup.

The library is written in Verus. Every function states what it computes over
sequences of bytes and characters, and is proved to compute it.

| module     | what it holds                                                      |
|------------|--------------------------------------------------------------------|
| `text`     | searching, splitting, trimming and lowering of characters          |
| `charset`  | bytes to text, through `encoding_rs`                               |
| `transfer` | quoted-printable and base64                                        |
| `words`    | encoded words in header fields                                     |
| `headers`  | header fields, the content type and its parameters                 |
| `mime`     | header block and body, multipart bodies, the text to show          |
| `message`  | the whole message as a document                                    |
| `model`    | the document                                                       |
| `error`    | why a message is refused                                           |
| `laws`     | what holds across the functions, as proved statements              |

What is believed without proof stands in `charset` (the calls into
`encoding_rs` and `String::from_utf8_lossy`) and in `text` (`String::push`).
