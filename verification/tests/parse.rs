use json_syntax::parse::document::Parse;
use json_syntax::parse::Options;
use json_syntax::Value;

fn test(buffer: &[u8], options: Options) {
    let input = if options.accept_invalid_codepoints {
        String::from_utf8_lossy(buffer)
    } else {
        std::borrow::Cow::Borrowed(std::str::from_utf8(buffer).unwrap())
    };

    Value::parse_str_with(&input, options).expect("parse error");
}

#[test]
fn flexible_i_object_key_lone_2nd_surrogate() {
    test(b"{\"\\uDFAA\":0}", Options::flexible())
}

#[test]
#[should_panic]
fn strict_i_object_key_lone_2nd_surrogate() {
    test(b"{\"\\uDFAA\":0}", Options::strict())
}

#[test]
fn flexible_i_string_1st_valid_surrogate_2nd_invalid() {
    test(b"[\"\\uD888\\u1234\"]", Options::flexible())
}

#[test]
#[should_panic]
fn strict_i_string_1st_valid_surrogate_2nd_invalid() {
    test(b"[\"\\uD888\\u1234\"]", Options::strict())
}

#[test]
fn flexible_i_string_utf8_invalid_sequence() {
    test(b"[\"\xe6\x97\xa5\xd1\x88\xfa\"]", Options::flexible())
}

#[test]
#[should_panic]
fn strict_i_string_utf8_invalid_sequence() {
    test(b"[\"\xe6\x97\xa5\xd1\x88\xfa\"]", Options::strict())
}

#[test]
fn flexible_i_string_utf8_surrogate_ud800() {
    test(b"[\"\xed\xa0\x80\"]", Options::flexible())
}

#[test]
#[should_panic]
fn strict_i_string_utf8_surrogate_ud800() {
    test(b"[\"\xed\xa0\x80\"]", Options::strict())
}

#[test]
fn flexible_i_string_incomplete_surrogate_and_escape_valid() {
    test(b"[\"\\uD800\\n\"]", Options::flexible())
}

#[test]
#[should_panic]
fn strict_i_string_incomplete_surrogate_and_escape_valid() {
    test(b"[\"\\uD800\\n\"]", Options::strict())
}

#[test]
fn flexible_i_string_incomplete_surrogate_pair() {
    test(b"[\"\\uDd1ea\"]", Options::flexible())
}

#[test]
#[should_panic]
fn strict_i_string_incomplete_surrogate_pair() {
    test(b"[\"\\uDd1ea\"]", Options::strict())
}

#[test]
fn flexible_i_string_incomplete_surrogates_escape_valid() {
    test(b"[\"\\uD800\\uD800\\n\"]", Options::flexible())
}

#[test]
#[should_panic]
fn strict_i_string_incomplete_surrogates_escape_valid() {
    test(b"[\"\\uD800\\uD800\\n\"]", Options::strict())
}

#[test]
fn flexible_i_string_invalid_lonely_surrogate() {
    test(b"[\"\\ud800\"]", Options::flexible())
}

#[test]
#[should_panic]
fn strict_i_string_invalid_lonely_surrogate() {
    test(b"[\"\\ud800\"]", Options::strict())
}

#[test]
fn flexible_i_string_invalid_surrogate() {
    test(b"[\"\\ud800abc\"]", Options::flexible())
}

#[test]
#[should_panic]
fn strict_i_string_invalid_surrogate() {
    test(b"[\"\\ud800abc\"]", Options::strict())
}

#[test]
fn flexible_i_string_invalid_utf_minus_8() {
    test(b"[\"\xff\"]", Options::flexible())
}

#[test]
#[should_panic]
fn strict_i_string_invalid_utf_minus_8() {
    test(b"[\"\xff\"]", Options::strict())
}

#[test]
fn flexible_i_string_inverted_surrogates_u1d11e() {
    test(b"[\"\\uDd1e\\uD834\"]", Options::flexible())
}

#[test]
#[should_panic]
fn strict_i_string_inverted_surrogates_u1d11e() {
    test(b"[\"\\uDd1e\\uD834\"]", Options::strict())
}

#[test]
fn flexible_i_string_iso_latin_1() {
    test(b"[\"\xe9\"]", Options::flexible())
}

#[test]
#[should_panic]
fn strict_i_string_iso_latin_1() {
    test(b"[\"\xe9\"]", Options::strict())
}

#[test]
fn flexible_i_string_lone_second_surrogate() {
    test(b"[\"\\uDFAA\"]", Options::flexible())
}

#[test]
#[should_panic]
fn strict_i_string_lone_second_surrogate() {
    test(b"[\"\\uDFAA\"]", Options::strict())
}

#[test]
fn flexible_i_string_lone_utf8_continuation_byte() {
    test(b"[\"\x81\"]", Options::flexible())
}

#[test]
#[should_panic]
fn strict_i_string_lone_utf8_continuation_byte() {
    test(b"[\"\x81\"]", Options::strict())
}

#[test]
fn flexible_i_string_not_in_unicode_range() {
    test(b"[\"\xf4\xbf\xbf\xbf\"]", Options::flexible())
}

#[test]
#[should_panic]
fn strict_i_string_not_in_unicode_range() {
    test(b"[\"\xf4\xbf\xbf\xbf\"]", Options::strict())
}

#[test]
fn flexible_i_string_overlong_sequence_2_bytes() {
    test(b"[\"\xc0\xaf\"]", Options::flexible())
}

#[test]
#[should_panic]
fn strict_i_string_overlong_sequence_2_bytes() {
    test(b"[\"\xc0\xaf\"]", Options::strict())
}

#[test]
fn flexible_i_string_overlong_sequence_6_bytes() {
    test(b"[\"\xfc\x83\xbf\xbf\xbf\xbf\"]", Options::flexible())
}

#[test]
#[should_panic]
fn strict_i_string_overlong_sequence_6_bytes() {
    test(b"[\"\xfc\x83\xbf\xbf\xbf\xbf\"]", Options::strict())
}

#[test]
fn flexible_i_string_overlong_sequence_6_bytes_null() {
    test(b"[\"\xfc\x80\x80\x80\x80\x80\"]", Options::flexible())
}

#[test]
#[should_panic]
fn strict_i_string_overlong_sequence_6_bytes_null() {
    test(b"[\"\xfc\x80\x80\x80\x80\x80\"]", Options::strict())
}

#[test]
fn flexible_i_string_truncated_minus_utf_minus_8() {
    test(b"[\"\xe0\xff\"]", Options::flexible())
}

#[test]
#[should_panic]
fn strict_i_string_truncated_minus_utf_minus_8() {
    test(b"[\"\xe0\xff\"]", Options::strict())
}

#[test]
#[should_panic]
fn n_array_1_true_without_comma() {
    test(b"[1 true]", Options::strict())
}

#[test]
#[should_panic]
fn n_array_a_invalid_utf8() {
    test(b"[a\xe5]", Options::strict())
}

#[test]
#[should_panic]
fn n_array_colon_instead_of_comma() {
    test(b"[\"\": 1]", Options::strict())
}

#[test]
#[should_panic]
fn n_array_comma_after_close() {
    test(b"[\"\"],", Options::strict())
}

#[test]
#[should_panic]
fn n_array_comma_and_number() {
    test(b"[,1]", Options::strict())
}

#[test]
#[should_panic]
fn n_array_double_comma() {
    test(b"[1,,2]", Options::strict())
}

#[test]
#[should_panic]
fn n_array_double_extra_comma() {
    test(b"[\"x\",,]", Options::strict())
}

#[test]
#[should_panic]
fn n_array_extra_close() {
    test(b"[\"x\"]]", Options::strict())
}

#[test]
#[should_panic]
fn n_array_extra_comma() {
    test(b"[\"\",]", Options::strict())
}

#[test]
#[should_panic]
fn n_array_incomplete() {
    test(b"[\"x\"", Options::strict())
}

#[test]
#[should_panic]
fn n_array_incomplete_invalid_value() {
    test(b"[x", Options::strict())
}

#[test]
#[should_panic]
fn n_array_inner_array_no_comma() {
    test(b"[3[4]]", Options::strict())
}

#[test]
#[should_panic]
fn n_array_invalid_utf8() {
    test(b"[\xff]", Options::strict())
}

#[test]
#[should_panic]
fn n_array_items_separated_by_semicolon() {
    test(b"[1:2]", Options::strict())
}

#[test]
#[should_panic]
fn n_array_just_comma() {
    test(b"[,]", Options::strict())
}

#[test]
#[should_panic]
fn n_array_just_minus() {
    test(b"[-]", Options::strict())
}

#[test]
#[should_panic]
fn n_array_missing_value() {
    test(b"[   , \"\"]", Options::strict())
}

#[test]
#[should_panic]
fn n_array_newlines_unclosed() {
    test(b"[\"a\",\x0a4\x0a,1,", Options::strict())
}

#[test]
#[should_panic]
fn n_array_number_and_comma() {
    test(b"[1,]", Options::strict())
}

#[test]
#[should_panic]
fn n_array_number_and_several_commas() {
    test(b"[1,,]", Options::strict())
}

#[test]
#[should_panic]
fn n_array_spaces_vertical_tab_formfeed() {
    test(b"[\"\x0ba\"\\f]", Options::strict())
}

#[test]
#[should_panic]
fn n_array_star_inside() {
    test(b"[*]", Options::strict())
}

#[test]
#[should_panic]
fn n_array_unclosed() {
    test(b"[\"\"", Options::strict())
}

#[test]
#[should_panic]
fn n_array_unclosed_trailing_comma() {
    test(b"[1,", Options::strict())
}

#[test]
#[should_panic]
fn n_array_unclosed_with_new_lines() {
    test(b"[1,\x0a1\x0a,1", Options::strict())
}

#[test]
#[should_panic]
fn n_array_unclosed_with_object_inside() {
    test(b"[{}", Options::strict())
}

#[test]
#[should_panic]
fn n_incomplete_false() {
    test(b"[fals]", Options::strict())
}

#[test]
#[should_panic]
fn n_incomplete_null() {
    test(b"[nul]", Options::strict())
}

#[test]
#[should_panic]
fn n_incomplete_true() {
    test(b"[tru]", Options::strict())
}

#[test]
#[should_panic]
fn n_multidigit_number_then_00() {
    test(b"123\x00", Options::strict())
}

#[test]
#[should_panic]
fn n_number_plus_plus_() {
    test(b"[++1234]", Options::strict())
}

#[test]
#[should_panic]
fn n_number_plus_1() {
    test(b"[+1]", Options::strict())
}

#[test]
#[should_panic]
fn n_number_plus_inf() {
    test(b"[+Inf]", Options::strict())
}

#[test]
#[should_panic]
fn n_number_minus_01() {
    test(b"[-01]", Options::strict())
}

#[test]
#[should_panic]
fn n_number_minus_1_0_() {
    test(b"[-1.0.]", Options::strict())
}

#[test]
#[should_panic]
fn n_number_minus_2_() {
    test(b"[-2.]", Options::strict())
}

#[test]
#[should_panic]
fn n_number_minus_nan() {
    test(b"[-NaN]", Options::strict())
}

#[test]
#[should_panic]
fn n_number_minus_1() {
    test(b"[.-1]", Options::strict())
}

#[test]
#[should_panic]
fn n_number_2e_minus_3() {
    test(b"[.2e-3]", Options::strict())
}

#[test]
#[should_panic]
fn n_number_0_1_2() {
    test(b"[0.1.2]", Options::strict())
}

#[test]
#[should_panic]
fn n_number_0_3e_plus_() {
    test(b"[0.3e+]", Options::strict())
}

#[test]
#[should_panic]
fn n_number_0_3e() {
    test(b"[0.3e]", Options::strict())
}

#[test]
#[should_panic]
fn n_number_0_e1() {
    test(b"[0.e1]", Options::strict())
}

#[test]
#[should_panic]
fn n_number_0_capital_e_plus_() {
    test(b"[0E+]", Options::strict())
}

#[test]
#[should_panic]
fn n_number_0_capital_e() {
    test(b"[0E]", Options::strict())
}

#[test]
#[should_panic]
fn n_number_0e_plus_() {
    test(b"[0e+]", Options::strict())
}

#[test]
#[should_panic]
fn n_number_0e() {
    test(b"[0e]", Options::strict())
}

#[test]
#[should_panic]
fn n_number_1_0e_plus_() {
    test(b"[1.0e+]", Options::strict())
}

#[test]
#[should_panic]
fn n_number_1_0e_minus_() {
    test(b"[1.0e-]", Options::strict())
}

#[test]
#[should_panic]
fn n_number_1_0e() {
    test(b"[1.0e]", Options::strict())
}

#[test]
#[should_panic]
fn n_number_1_000() {
    test(b"[1 000.0]", Options::strict())
}

#[test]
#[should_panic]
fn n_number_1ee2() {
    test(b"[1eE2]", Options::strict())
}

#[test]
#[should_panic]
fn n_number_2_e_plus_3() {
    test(b"[2.e+3]", Options::strict())
}

#[test]
#[should_panic]
fn n_number_2_e_minus_3() {
    test(b"[2.e-3]", Options::strict())
}

#[test]
#[should_panic]
fn n_number_2_e3() {
    test(b"[2.e3]", Options::strict())
}

#[test]
#[should_panic]
fn n_number_9_e_plus_() {
    test(b"[9.e+]", Options::strict())
}

#[test]
#[should_panic]
fn n_number_inf() {
    test(b"[Inf]", Options::strict())
}

#[test]
#[should_panic]
fn n_number_nan() {
    test(b"[NaN]", Options::strict())
}

#[test]
#[should_panic]
fn n_number_uff11_fullwidth_digit_one() {
    test(b"[\xef\xbc\x91]", Options::strict())
}

#[test]
#[should_panic]
fn n_number_expression() {
    test(b"[1+2]", Options::strict())
}

#[test]
#[should_panic]
fn n_number_hex_1_digit() {
    test(b"[0x1]", Options::strict())
}

#[test]
#[should_panic]
fn n_number_hex_2_digits() {
    test(b"[0x42]", Options::strict())
}

#[test]
#[should_panic]
fn n_number_infinity() {
    test(b"[Infinity]", Options::strict())
}

#[test]
#[should_panic]
fn n_number_invalid_plus_minus_() {
    test(b"[0e+-1]", Options::strict())
}

#[test]
#[should_panic]
fn n_number_invalid_minus_negative_minus_real() {
    test(b"[-123.123foo]", Options::strict())
}

#[test]
#[should_panic]
fn n_number_invalid_minus_utf_minus_8_minus_in_minus_bigger_minus_int() {
    test(b"[123\xe5]", Options::strict())
}

#[test]
#[should_panic]
fn n_number_invalid_minus_utf_minus_8_minus_in_minus_exponent() {
    test(b"[1e1\xe5]", Options::strict())
}

#[test]
#[should_panic]
fn n_number_invalid_minus_utf_minus_8_minus_in_minus_int() {
    test(b"[0\xe5]", Options::strict())
}

#[test]
#[should_panic]
fn n_number_minus_infinity() {
    test(b"[-Infinity]", Options::strict())
}

#[test]
#[should_panic]
fn n_number_minus_sign_with_trailing_garbage() {
    test(b"[-foo]", Options::strict())
}

#[test]
#[should_panic]
fn n_number_minus_space_1() {
    test(b"[- 1]", Options::strict())
}

#[test]
#[should_panic]
fn n_number_neg_int_starting_with_zero() {
    test(b"[-012]", Options::strict())
}

#[test]
#[should_panic]
fn n_number_neg_real_without_int_part() {
    test(b"[-.123]", Options::strict())
}

#[test]
#[should_panic]
fn n_number_neg_with_garbage_at_end() {
    test(b"[-1x]", Options::strict())
}

#[test]
#[should_panic]
fn n_number_real_garbage_after_e() {
    test(b"[1ea]", Options::strict())
}

#[test]
#[should_panic]
fn n_number_real_with_invalid_utf8_after_e() {
    test(b"[1e\xe5]", Options::strict())
}

#[test]
#[should_panic]
fn n_number_real_without_fractional_part() {
    test(b"[1.]", Options::strict())
}

#[test]
#[should_panic]
fn n_number_starting_with_dot() {
    test(b"[.123]", Options::strict())
}

#[test]
#[should_panic]
fn n_number_with_alpha() {
    test(b"[1.2a-3]", Options::strict())
}

#[test]
#[should_panic]
fn n_number_with_alpha_char() {
    test(b"[1.8011670033376514H-308]", Options::strict())
}

#[test]
#[should_panic]
fn n_number_with_leading_zero() {
    test(b"[012]", Options::strict())
}

#[test]
#[should_panic]
fn n_object_bad_value() {
    test(b"[\"x\", truth]", Options::strict())
}

#[test]
#[should_panic]
fn n_object_bracket_key() {
    test(b"{[: \"x\"}\x0a", Options::strict())
}

#[test]
#[should_panic]
fn n_object_comma_instead_of_colon() {
    test(b"{\"x\", null}", Options::strict())
}

#[test]
#[should_panic]
fn n_object_double_colon() {
    test(b"{\"x\"::\"b\"}", Options::strict())
}

#[test]
#[should_panic]
fn n_object_emoji() {
    test(b"{\xf0\x9f\x87\xa8\xf0\x9f\x87\xad}", Options::strict())
}

#[test]
#[should_panic]
fn n_object_garbage_at_end() {
    test(b"{\"a\":\"a\" 123}", Options::strict())
}

#[test]
#[should_panic]
fn n_object_key_with_single_quotes() {
    test(b"{key: 'value'}", Options::strict())
}

#[test]
#[should_panic]
fn n_object_lone_continuation_byte_in_key_and_trailing_comma() {
    test(b"{\"\xb9\":\"0\",}", Options::strict())
}

#[test]
#[should_panic]
fn n_object_missing_colon() {
    test(b"{\"a\" b}", Options::strict())
}

#[test]
#[should_panic]
fn n_object_missing_key() {
    test(b"{:\"b\"}", Options::strict())
}

#[test]
#[should_panic]
fn n_object_missing_semicolon() {
    test(b"{\"a\" \"b\"}", Options::strict())
}

#[test]
#[should_panic]
fn n_object_missing_value() {
    test(b"{\"a\":", Options::strict())
}

#[test]
#[should_panic]
fn n_object_no_minus_colon() {
    test(b"{\"a\"", Options::strict())
}

#[test]
#[should_panic]
fn n_object_non_string_key() {
    test(b"{1:1}", Options::strict())
}

#[test]
#[should_panic]
fn n_object_non_string_key_but_huge_number_instead() {
    test(b"{9999E9999:1}", Options::strict())
}

#[test]
#[should_panic]
fn n_object_repeated_null_null() {
    test(b"{null:null,null:null}", Options::strict())
}

#[test]
#[should_panic]
fn n_object_several_trailing_commas() {
    test(b"{\"id\":0,,,,,}", Options::strict())
}

#[test]
#[should_panic]
fn n_object_single_quote() {
    test(b"{'a':0}", Options::strict())
}

#[test]
#[should_panic]
fn n_object_trailing_comma() {
    test(b"{\"id\":0,}", Options::strict())
}

#[test]
#[should_panic]
fn n_object_trailing_comment() {
    test(b"{\"a\":\"b\"}/**/", Options::strict())
}

#[test]
#[should_panic]
fn n_object_trailing_comment_open() {
    test(b"{\"a\":\"b\"}/**//", Options::strict())
}

#[test]
#[should_panic]
fn n_object_trailing_comment_slash_open() {
    test(b"{\"a\":\"b\"}//", Options::strict())
}

#[test]
#[should_panic]
fn n_object_trailing_comment_slash_open_incomplete() {
    test(b"{\"a\":\"b\"}/", Options::strict())
}

#[test]
#[should_panic]
fn n_object_two_commas_in_a_row() {
    test(b"{\"a\":\"b\",,\"c\":\"d\"}", Options::strict())
}

#[test]
#[should_panic]
fn n_object_unquoted_key() {
    test(b"{a: \"b\"}", Options::strict())
}

#[test]
#[should_panic]
fn n_object_unterminated_minus_value() {
    test(b"{\"a\":\"a", Options::strict())
}

#[test]
#[should_panic]
fn n_object_with_single_string() {
    test(b"{ \"foo\" : \"bar\", \"a\" }", Options::strict())
}

#[test]
#[should_panic]
fn n_object_with_trailing_garbage() {
    test(b"{\"a\":\"b\"}#", Options::strict())
}

#[test]
#[should_panic]
fn n_single_space() {
    test(b" ", Options::strict())
}

#[test]
#[should_panic]
fn n_string_1_surrogate_then_escape() {
    test(b"[\"\\uD800\\\"]", Options::strict())
}

#[test]
#[should_panic]
fn n_string_1_surrogate_then_escape_u() {
    test(b"[\"\\uD800\\u\"]", Options::strict())
}

#[test]
#[should_panic]
fn n_string_1_surrogate_then_escape_u1() {
    test(b"[\"\\uD800\\u1\"]", Options::strict())
}

#[test]
#[should_panic]
fn n_string_1_surrogate_then_escape_u1x() {
    test(b"[\"\\uD800\\u1x\"]", Options::strict())
}

#[test]
#[should_panic]
fn n_string_accentuated_char_no_quotes() {
    test(b"[\xc3\xa9]", Options::strict())
}

#[test]
#[should_panic]
fn n_string_backslash_00() {
    test(b"[\"\\\x00\"]", Options::strict())
}

#[test]
#[should_panic]
fn n_string_escape_x() {
    test(b"[\"\\x00\"]", Options::strict())
}

#[test]
#[should_panic]
fn n_string_escaped_backslash_bad() {
    test(b"[\"\\\\\\\"]", Options::strict())
}

#[test]
#[should_panic]
fn n_string_escaped_ctrl_char_tab() {
    test(b"[\"\\\x09\"]", Options::strict())
}

#[test]
#[should_panic]
fn n_string_escaped_emoji() {
    test(b"[\"\\\xf0\x9f\x8c\x80\"]", Options::strict())
}

#[test]
#[should_panic]
fn n_string_incomplete_escape() {
    test(b"[\"\\\"]", Options::strict())
}

#[test]
#[should_panic]
fn n_string_incomplete_escaped_character() {
    test(b"[\"\\u00A\"]", Options::strict())
}

#[test]
#[should_panic]
fn n_string_incomplete_surrogate() {
    test(b"[\"\\uD834\\uDd\"]", Options::strict())
}

#[test]
#[should_panic]
fn n_string_incomplete_surrogate_escape_invalid() {
    test(b"[\"\\uD800\\uD800\\x\"]", Options::strict())
}

#[test]
#[should_panic]
fn n_string_invalid_minus_utf_minus_8_minus_in_minus_escape() {
    test(b"[\"\\u\xe5\"]", Options::strict())
}

#[test]
#[should_panic]
fn n_string_invalid_backslash_esc() {
    test(b"[\"\\a\"]", Options::strict())
}

#[test]
#[should_panic]
fn n_string_invalid_unicode_escape() {
    test(b"[\"\\uqqqq\"]", Options::strict())
}

#[test]
#[should_panic]
fn n_string_invalid_utf8_after_escape() {
    test(b"[\"\\\xe5\"]", Options::strict())
}

#[test]
#[should_panic]
fn n_string_leading_uescaped_thinspace() {
    test(b"[\\u0020\"asd\"]", Options::strict())
}

#[test]
#[should_panic]
fn n_string_no_quotes_with_bad_escape() {
    test(b"[\\n]", Options::strict())
}

#[test]
#[should_panic]
fn n_string_single_doublequote() {
    test(b"\"", Options::strict())
}

#[test]
#[should_panic]
fn n_string_single_quote() {
    test(b"['single quote']", Options::strict())
}

#[test]
#[should_panic]
fn n_string_single_string_no_double_quotes() {
    test(b"abc", Options::strict())
}

#[test]
#[should_panic]
fn n_string_start_escape_unclosed() {
    test(b"[\"\\", Options::strict())
}

#[test]
#[should_panic]
fn n_string_unescaped_ctrl_char() {
    test(b"[\"a\x00a\"]", Options::strict())
}

#[test]
#[should_panic]
fn n_string_unescaped_newline() {
    test(b"[\"new\x0aline\"]", Options::strict())
}

#[test]
#[should_panic]
fn n_string_unescaped_tab() {
    test(b"[\"\x09\"]", Options::strict())
}

#[test]
#[should_panic]
fn n_string_unicode_capitalu() {
    test(b"\"\\UA66D\"", Options::strict())
}

#[test]
#[should_panic]
fn n_string_with_trailing_garbage() {
    test(b"\"\"x", Options::strict())
}

#[test]
#[should_panic]
fn n_structure_100000_opening_arrays() {
    let input = vec![b'['; 100000];
    test(&input, Options::strict())
}

#[test]
#[should_panic]
fn n_structure_u2060_word_joined() {
    test(b"[\xe2\x81\xa0]", Options::strict())
}

#[test]
#[should_panic]
fn n_structure_utf8_bom_no_data() {
    test(b"\xef\xbb\xbf", Options::strict())
}

#[test]
#[should_panic]
fn n_structure_angle_bracket_() {
    test(b"<.>", Options::strict())
}

#[test]
#[should_panic]
fn n_structure_angle_bracket_null() {
    test(b"[<null>]", Options::strict())
}

#[test]
#[should_panic]
fn n_structure_array_trailing_garbage() {
    test(b"[1]x", Options::strict())
}

#[test]
#[should_panic]
fn n_structure_array_with_extra_array_close() {
    test(b"[1]]", Options::strict())
}

#[test]
#[should_panic]
fn n_structure_array_with_unclosed_string() {
    test(b"[\"asd]", Options::strict())
}

#[test]
#[should_panic]
fn n_structure_ascii_minus_unicode_minus_identifier() {
    test(b"a\xc3\xa5", Options::strict())
}

#[test]
#[should_panic]
fn n_structure_capitalized_true() {
    test(b"[True]", Options::strict())
}

#[test]
#[should_panic]
fn n_structure_close_unopened_array() {
    test(b"1]", Options::strict())
}

#[test]
#[should_panic]
fn n_structure_comma_instead_of_closing_brace() {
    test(b"{\"x\": true,", Options::strict())
}

#[test]
#[should_panic]
fn n_structure_double_array() {
    test(b"[][]", Options::strict())
}

#[test]
#[should_panic]
fn n_structure_end_array() {
    test(b"]", Options::strict())
}

#[test]
#[should_panic]
fn n_structure_incomplete_utf8_bom() {
    test(b"\xef\xbb{}", Options::strict())
}

#[test]
#[should_panic]
fn n_structure_lone_minus_invalid_minus_utf_minus_8() {
    test(b"\xe5", Options::strict())
}

#[test]
#[should_panic]
fn n_structure_lone_minus_open_minus_bracket() {
    test(b"[", Options::strict())
}

#[test]
#[should_panic]
fn n_structure_no_data() {
    test(b"", Options::strict())
}

#[test]
#[should_panic]
fn n_structure_null_minus_byte_minus_outside_minus_string() {
    test(b"[\x00]", Options::strict())
}

#[test]
#[should_panic]
fn n_structure_number_with_trailing_garbage() {
    test(b"2@", Options::strict())
}

#[test]
#[should_panic]
fn n_structure_object_followed_by_closing_object() {
    test(b"{}}", Options::strict())
}

#[test]
#[should_panic]
fn n_structure_object_unclosed_no_value() {
    test(b"{\"\":", Options::strict())
}

#[test]
#[should_panic]
fn n_structure_object_with_comment() {
    test(b"{\"a\":/*comment*/\"b\"}", Options::strict())
}

#[test]
#[should_panic]
fn n_structure_object_with_trailing_garbage() {
    test(b"{\"a\": true} \"x\"", Options::strict())
}

#[test]
#[should_panic]
fn n_structure_open_array_apostrophe() {
    test(b"['", Options::strict())
}

#[test]
#[should_panic]
fn n_structure_open_array_comma() {
    test(b"[,", Options::strict())
}

#[test]
#[should_panic]
fn n_structure_open_array_object() {
    let input = b"[{\"\":".repeat(50000);
    test(&input, Options::strict())
}

#[test]
#[should_panic]
fn n_structure_open_array_open_object() {
    test(b"[{", Options::strict())
}

#[test]
#[should_panic]
fn n_structure_open_array_open_string() {
    test(b"[\"a", Options::strict())
}

#[test]
#[should_panic]
fn n_structure_open_array_string() {
    test(b"[\"a\"", Options::strict())
}

#[test]
#[should_panic]
fn n_structure_open_object() {
    test(b"{", Options::strict())
}

#[test]
#[should_panic]
fn n_structure_open_object_close_array() {
    test(b"{]", Options::strict())
}

#[test]
#[should_panic]
fn n_structure_open_object_comma() {
    test(b"{,", Options::strict())
}

#[test]
#[should_panic]
fn n_structure_open_object_open_array() {
    test(b"{[", Options::strict())
}

#[test]
#[should_panic]
fn n_structure_open_object_open_string() {
    test(b"{\"a", Options::strict())
}

#[test]
#[should_panic]
fn n_structure_open_object_string_with_apostrophes() {
    test(b"{'a'", Options::strict())
}

#[test]
#[should_panic]
fn n_structure_open_open() {
    test(b"[\"\\{[\"\\{[\"\\{[\"\\{", Options::strict())
}

#[test]
#[should_panic]
fn n_structure_single_eacute() {
    test(b"\xe9", Options::strict())
}

#[test]
#[should_panic]
fn n_structure_single_star() {
    test(b"*", Options::strict())
}

#[test]
#[should_panic]
fn n_structure_trailing_() {
    test(b"{\"a\":\"b\"}#{}", Options::strict())
}

#[test]
#[should_panic]
fn n_structure_uescaped_lf_before_string() {
    test(b"[\\u000A\"\"]", Options::strict())
}

#[test]
#[should_panic]
fn n_structure_unclosed_array() {
    test(b"[1", Options::strict())
}

#[test]
#[should_panic]
fn n_structure_unclosed_array_partial_null() {
    test(b"[ false, nul", Options::strict())
}

#[test]
#[should_panic]
fn n_structure_unclosed_array_unfinished_false() {
    test(b"[ true, fals", Options::strict())
}

#[test]
#[should_panic]
fn n_structure_unclosed_array_unfinished_true() {
    test(b"[ false, tru", Options::strict())
}

#[test]
#[should_panic]
fn n_structure_unclosed_object() {
    test(b"{\"asd\":\"asd\"", Options::strict())
}

#[test]
#[should_panic]
fn n_structure_unicode_minus_identifier() {
    test(b"\xc3\xa5", Options::strict())
}

#[test]
#[should_panic]
fn n_structure_whitespace_u2060_word_joiner() {
    test(b"[\xe2\x81\xa0]", Options::strict())
}

#[test]
#[should_panic]
fn n_structure_whitespace_formfeed() {
    test(b"[\x0c]", Options::strict())
}

#[test]
fn y_array_arrayswithspaces() {
    test(b"[[]   ]", Options::strict())
}

#[test]
fn y_array_empty_minus_string() {
    test(b"[\"\"]", Options::strict())
}

#[test]
fn y_array_empty() {
    test(b"[]", Options::strict())
}

#[test]
fn y_array_ending_with_newline() {
    test(b"[\"a\"]", Options::strict())
}

#[test]
fn y_array_false() {
    test(b"[false]", Options::strict())
}

#[test]
fn y_array_heterogeneous() {
    test(b"[null, 1, \"1\", {}]", Options::strict())
}

#[test]
fn y_array_null() {
    test(b"[null]", Options::strict())
}

#[test]
fn y_array_with_1_and_newline() {
    test(b"[1\x0a]", Options::strict())
}

#[test]
fn y_array_with_leading_space() {
    test(b" [1]", Options::strict())
}

#[test]
fn y_array_with_several_null() {
    test(b"[1,null,null,null,2]", Options::strict())
}

#[test]
fn y_array_with_trailing_space() {
    test(b"[2] ", Options::strict())
}

#[test]
fn y_number() {
    test(b"[123e65]", Options::strict())
}

#[test]
fn y_number_0e_plus_1() {
    test(b"[0e+1]", Options::strict())
}

#[test]
fn y_number_0e1() {
    test(b"[0e1]", Options::strict())
}

#[test]
fn y_number_after_space() {
    test(b"[ 4]", Options::strict())
}

#[test]
fn y_number_double_close_to_zero() {
    test(b"[-0.000000000000000000000000000000000000000000000000000000000000000000000000000001]\x0a", Options::strict())
}

#[test]
fn y_number_double_huge_neg_exp() {
    test(b"[123.456e-789]", Options::strict())
}

#[test]
fn y_number_huge_exp() {
    test(b"[0.4e0066999999999999999999999999999999999999999999999999999999999999999999999999999999999999999999999999999999999999999999999999999999999999999999999999999999999999999999999999999999999999999999999999999999999999999999999999999999999999999999999999999999999999999999999999999999999999999999999999999999999999006]", Options::strict())
}

#[test]
fn y_number_int_with_exp() {
    test(b"[20e1]", Options::strict())
}

#[test]
fn y_number_minus_zero() {
    test(b"[-0]", Options::strict())
}

#[test]
fn y_number_neg_int_huge_exp() {
    test(b"[-1e+9999]", Options::strict())
}

#[test]
fn y_number_negative_int() {
    test(b"[-123]", Options::strict())
}

#[test]
fn y_number_negative_one() {
    test(b"[-1]", Options::strict())
}

#[test]
fn y_number_negative_zero() {
    test(b"[-0]", Options::strict())
}

#[test]
fn y_number_pos_double_huge_exp() {
    test(b"[1.5e+9999]", Options::strict())
}

#[test]
fn y_number_real_capital_e() {
    test(b"[1E22]", Options::strict())
}

#[test]
fn y_number_real_capital_e_neg_exp() {
    test(b"[1E-2]", Options::strict())
}

#[test]
fn y_number_real_capital_e_pos_exp() {
    test(b"[1E+2]", Options::strict())
}

#[test]
fn y_number_real_exponent() {
    test(b"[123e45]", Options::strict())
}

#[test]
fn y_number_real_fraction_exponent() {
    test(b"[123.456e78]", Options::strict())
}

#[test]
fn y_number_real_neg_exp() {
    test(b"[1e-2]", Options::strict())
}

#[test]
fn y_number_real_neg_overflow() {
    test(b"[-123123e100000]", Options::strict())
}

#[test]
fn y_number_real_pos_exponent() {
    test(b"[1e+2]", Options::strict())
}

#[test]
fn y_number_real_pos_overflow() {
    test(b"[123123e100000]", Options::strict())
}

#[test]
fn y_number_real_underflow() {
    test(b"[123e-10000000]", Options::strict())
}

#[test]
fn y_number_simple_int() {
    test(b"[123]", Options::strict())
}

#[test]
fn y_number_simple_real() {
    test(b"[123.456789]", Options::strict())
}

#[test]
fn y_number_too_big_neg_int() {
    test(b"[-123123123123123123123123123123]", Options::strict())
}

#[test]
fn y_number_too_big_pos_int() {
    test(b"[100000000000000000000]", Options::strict())
}

#[test]
fn y_number_very_big_negative_int() {
    test(b"[-237462374673276894279832749832423479823246327846]", Options::strict())
}

#[test]
fn y_object() {
    test(b"{\"asd\":\"sdf\", \"dfg\":\"fgh\"}", Options::strict())
}

#[test]
fn y_object_basic() {
    test(b"{\"asd\":\"sdf\"}", Options::strict())
}

#[test]
fn y_object_duplicated_key() {
    test(b"{\"a\":\"b\",\"a\":\"c\"}", Options::strict())
}

#[test]
fn y_object_duplicated_key_and_value() {
    test(b"{\"a\":\"b\",\"a\":\"b\"}", Options::strict())
}

#[test]
fn y_object_empty() {
    test(b"{}", Options::strict())
}

#[test]
fn y_object_empty_key() {
    test(b"{\"\":0}", Options::strict())
}

#[test]
fn y_object_escaped_null_in_key() {
    test(b"{\"foo\\u0000bar\": 42}", Options::strict())
}

#[test]
fn y_object_extreme_numbers() {
    test(b"{ \"min\": -1.0e+28, \"max\": 1.0e+28 }", Options::strict())
}

#[test]
fn y_object_long_strings() {
    test(b"{\"x\":[{\"id\": \"xxxxxxxxxxxxxxxxxxxxxxxxxxxxxxxxxxxxxxxx\"}], \"id\": \"xxxxxxxxxxxxxxxxxxxxxxxxxxxxxxxxxxxxxxxx\"}", Options::strict())
}

#[test]
fn y_object_simple() {
    test(b"{\"a\":[]}", Options::strict())
}

#[test]
fn y_object_string_unicode() {
    test(b"{\"title\":\"\\u041f\\u043e\\u043b\\u0442\\u043e\\u0440\\u0430 \\u0417\\u0435\\u043c\\u043b\\u0435\\u043a\\u043e\\u043f\\u0430\" }", Options::strict())
}

#[test]
fn y_object_with_newlines() {
    test(b"{\x0a\"a\": \"b\"\x0a}", Options::strict())
}

#[test]
fn y_string_1_2_3_bytes_utf8_sequences() {
    test(b"[\"\\u0060\\u012a\\u12AB\"]", Options::strict())
}

#[test]
fn y_string_accepted_surrogate_pair() {
    test(b"[\"\\uD801\\udc37\"]", Options::strict())
}

#[test]
fn y_string_accepted_surrogate_pairs() {
    test(b"[\"\\ud83d\\ude39\\ud83d\\udc8d\"]", Options::strict())
}

#[test]
fn y_string_allowed_escapes() {
    test(b"[\"\\\"\\\\\\/\\b\\f\\n\\r\\t\"]", Options::strict())
}

#[test]
fn y_string_backslash_and_u_escaped_zero() {
    test(b"[\"\\\\u0000\"]", Options::strict())
}

#[test]
fn y_string_backslash_doublequotes() {
    test(b"[\"\\\"\"]", Options::strict())
}

#[test]
fn y_string_comments() {
    test(b"[\"a/*b*/c/*d//e\"]", Options::strict())
}

#[test]
fn y_string_double_escape_a() {
    test(b"[\"\\\\a\"]", Options::strict())
}

#[test]
fn y_string_double_escape_n() {
    test(b"[\"\\\\n\"]", Options::strict())
}

#[test]
fn y_string_escaped_control_character() {
    test(b"[\"\\u0012\"]", Options::strict())
}

#[test]
fn y_string_escaped_noncharacter() {
    test(b"[\"\\uFFFF\"]", Options::strict())
}

#[test]
fn y_string_in_array() {
    test(b"[\"asd\"]", Options::strict())
}

#[test]
fn y_string_in_array_with_leading_space() {
    test(b"[ \"asd\"]", Options::strict())
}

#[test]
fn y_string_last_surrogates_1_and_2() {
    test(b"[\"\\uDBFF\\uDFFF\"]", Options::strict())
}

#[test]
fn y_string_nbsp_uescaped() {
    test(b"[\"new\\u00A0line\"]", Options::strict())
}

#[test]
fn y_string_noncharacterinutf8_u10ffff() {
    test(b"[\"\xf4\x8f\xbf\xbf\"]", Options::strict())
}

#[test]
fn y_string_noncharacterinutf8_uffff() {
    test(b"[\"\xef\xbf\xbf\"]", Options::strict())
}

#[test]
fn y_string_null_escape() {
    test(b"[\"\\u0000\"]", Options::strict())
}

#[test]
fn y_string_one_minus_byte_minus_utf_minus_8() {
    test(b"[\"\\u002c\"]", Options::strict())
}

#[test]
fn y_string_pi() {
    test(b"[\"\xcf\x80\"]", Options::strict())
}

#[test]
fn y_string_reservedcharacterinutf8_u1bfff() {
    test(b"[\"\xf0\x9b\xbf\xbf\"]", Options::strict())
}

#[test]
fn y_string_simple_ascii() {
    test(b"[\"asd \"]", Options::strict())
}

#[test]
fn y_string_space() {
    test(b"\" \"", Options::strict())
}

#[test]
fn y_string_surrogates_u1d11e_musical_symbol_g_clef() {
    test(b"[\"\\uD834\\uDd1e\"]", Options::strict())
}

#[test]
fn y_string_three_minus_byte_minus_utf_minus_8() {
    test(b"[\"\\u0821\"]", Options::strict())
}

#[test]
fn y_string_two_minus_byte_minus_utf_minus_8() {
    test(b"[\"\\u0123\"]", Options::strict())
}

#[test]
fn y_string_u_plus_2028_line_sep() {
    test(b"[\"\xe2\x80\xa8\"]", Options::strict())
}

#[test]
fn y_string_u_plus_2029_par_sep() {
    test(b"[\"\xe2\x80\xa9\"]", Options::strict())
}

#[test]
fn y_string_uescape() {
    test(b"[\"\\u0061\\u30af\\u30EA\\u30b9\"]", Options::strict())
}

#[test]
fn y_string_uescaped_newline() {
    test(b"[\"new\\u000Aline\"]", Options::strict())
}

#[test]
fn y_string_unescaped_char_delete() {
    test(b"[\"\x7f\"]", Options::strict())
}

#[test]
fn y_string_unicode() {
    test(b"[\"\\uA66D\"]", Options::strict())
}

#[test]
fn y_string_unicodeescapedbackslash() {
    test(b"[\"\\u005C\"]", Options::strict())
}

#[test]
fn y_string_unicode_2() {
    test(b"[\"\xe2\x8d\x82\xe3\x88\xb4\xe2\x8d\x82\"]", Options::strict())
}

#[test]
fn y_string_unicode_u10fffe_nonchar() {
    test(b"[\"\\uDBFF\\uDFFE\"]", Options::strict())
}

#[test]
fn y_string_unicode_u1fffe_nonchar() {
    test(b"[\"\\uD83F\\uDFFE\"]", Options::strict())
}

#[test]
fn y_string_unicode_u200b_zero_width_space() {
    test(b"[\"\\u200B\"]", Options::strict())
}

#[test]
fn y_string_unicode_u2064_invisible_plus() {
    test(b"[\"\\u2064\"]", Options::strict())
}

#[test]
fn y_string_unicode_ufdd0_nonchar() {
    test(b"[\"\\uFDD0\"]", Options::strict())
}

#[test]
fn y_string_unicode_ufffe_nonchar() {
    test(b"[\"\\uFFFE\"]", Options::strict())
}

#[test]
fn y_string_unicode_escaped_double_quote() {
    test(b"[\"\\u0022\"]", Options::strict())
}

#[test]
fn y_string_utf8() {
    test(b"[\"\xe2\x82\xac\xf0\x9d\x84\x9e\"]", Options::strict())
}

#[test]
fn y_string_with_del_character() {
    test(b"[\"a\x7fa\"]", Options::strict())
}

#[test]
fn y_structure_500_nested_arrays() {
    let mut input = vec![b'['; 500];
    input.extend(vec![b']'; 500]);
    test(&input, Options::strict())
}

#[test]
fn y_structure_lonely_false() {
    test(b"false", Options::strict())
}

#[test]
fn y_structure_lonely_int() {
    test(b"42", Options::strict())
}

#[test]
fn y_structure_lonely_negative_real() {
    test(b"-0.1", Options::strict())
}

#[test]
fn y_structure_lonely_null() {
    test(b"null", Options::strict())
}

#[test]
fn y_structure_lonely_string() {
    test(b"\"asd\"", Options::strict())
}

#[test]
fn y_structure_lonely_true() {
    test(b"true", Options::strict())
}

#[test]
fn y_structure_string_empty() {
    test(b"\"\"", Options::strict())
}

#[test]
fn y_structure_trailing_newline() {
    test(b"[\"a\"]\x0a", Options::strict())
}

#[test]
fn y_structure_true_in_array() {
    test(b"[true]", Options::strict())
}

#[test]
fn y_structure_whitespace_array() {
    test(b" [] ", Options::strict())
}

#[test]
fn number_document_stops_at_whitespace() {
    let (n, code_map) = json_syntax::NumberBuf::parse_str("-12.5e3 x").unwrap();
    assert_eq!(n.as_str(), "-12.5e3");
    assert_eq!(code_map.len(), 1);
    let entry = code_map.as_slice()[0];
    assert_eq!((entry.span.start, entry.span.end, entry.volume), (0, 7, 1));
}

#[test]
fn number_document_errors() {
    assert!(matches!(
        json_syntax::NumberBuf::parse_str(" 1"),
        Err(json_syntax::parse::Error::Unexpected(0, Some(' ')))
    ));
    assert!(matches!(
        json_syntax::NumberBuf::parse_str("1."),
        Err(json_syntax::parse::Error::Unexpected(2, None))
    ));
    assert!(matches!(
        json_syntax::NumberBuf::parse_str("12,"),
        Err(json_syntax::parse::Error::Unexpected(2, Some(',')))
    ));
}

#[test]
fn string_document_reads_escapes() {
    let (s, code_map) = String::parse_str("\"a\\n\\u00e9\" rest").unwrap();
    assert_eq!(s, "a\n\u{e9}");
    assert_eq!(code_map.len(), 1);
    let entry = code_map.as_slice()[0];
    assert_eq!((entry.span.start, entry.span.end, entry.volume), (0, 11, 1));
    assert!(matches!(
        String::parse_str("a"),
        Err(json_syntax::parse::Error::Unexpected(0, Some('a')))
    ));
}

#[test]
fn slice_decoding_follows_the_byte_patterns() {
    let (s, _) = String::parse_slice(&[0x22, 0xC3, 0xA9, 0x22]).unwrap();
    assert_eq!(s, "\u{e9}");
    // The decoder reads the bit patterns: a two-byte form of 'A' gives 'A'.
    let (s, _) = String::parse_slice(&[0x22, 0xC1, 0x81, 0x22]).unwrap();
    assert_eq!(s, "A");
    // An encoded surrogate is no scalar value.
    assert!(matches!(
        String::parse_slice(&[0x22, 0xED, 0xA0, 0x80, 0x22]),
        Err(json_syntax::parse::Error::InvalidUtf8(1))
    ));
    // A sequence cut short.
    assert!(matches!(
        Value::parse_slice(&[0x22, 0xE2, 0x82]),
        Err(json_syntax::parse::Error::InvalidUtf8(1))
    ));
}
