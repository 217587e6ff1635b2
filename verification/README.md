# sip_uri

SIP/SIPS (RFC 3261), tel: (RFC 3966) and URN (RFC 8141) URI parsing with
per-component percent-encoding, written in Verus. Every parser is stated as a
function from the input's characters to a value or an error message, and the
executable code is proved to compute exactly that.

## Layout

- `text`, `parse`, `canon`: characters, character sets, percent-decoding and
  encoding, and the facts about canonical percent-encoded text.
- `params`, `reparse`: `;`-parameters and `&`-headers, strict and lenient.
- `warning`, `order`: the grammar breaches the lenient parsers accept, and
  the proof that they are listed in input order.
- `ip`, `ip_text`, `host`: IPv4/IPv6 text and URI hosts.
- `sip_uri`, `sip_reparse`, `tel_uri`, `urn_uri`, `uri`, `name_addr`: the URI
  types. `Uri` keeps a URI of any scheme other than sip, sips, tel and urn as
  its raw text (`Uri::Other`), warning when the scheme is outside RFC 3986.

## Warnings

Every URI type has `parse_with_warnings`, which accepts exactly what `parse`
(and `FromStr`) accepts and lists the grammar breaches it accepted, in input
order, by component, code and byte offset. Neither warnings nor error
messages quote the input.

## Laws proved

- Writing out a parsed value and parsing it again gives the value back
  (`law_tel_round_trip`, `law_urn_round_trip`, `law_host_round_trip`,
  `law_sip_round_trip`, `law_uri_round_trip`, `law_name_addr_round_trip`), on
  every input where that holds; the requires of each says which.
- Canonizing is idempotent where no new escape appears
  (`law_canonize_idempotent`); `decode_user` reads canonized text as it reads
  the raw text (`law_decode_user_canonized`); `encode_uri_header` output is
  canonical (`law_encoded_header_canonical`, `law_encoded_header_fixed`).
- Every warning code has a distinct lowercase kebab-case name
  (`law_code_names`).
- Warnings come in input order: their byte positions never decrease
  (`order::law_sip_warnings_in_order`, `law_tel_warnings_in_order`,
  `law_urn_warnings_in_order`, `law_uri_warnings_in_order`,
  `law_host_warnings_in_order`).

## Header values are canonical

A URI header value is re-encoded canonically, every byte outside the `hnv`
set escaped, so a literal and an escaped `@` compare equal: for
`sips:user:pass@host:32;param=1?From=foo@bar&To=bar@baz`, `header("From")`
is `foo%40bar` and `header("To")` is `bar%40baz`.
