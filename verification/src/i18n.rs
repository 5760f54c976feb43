//! The translated texts that the editor shows most often.
use vstd::prelude::*;

verus! {

/// Translations looked up once, when the language is loaded.
#[derive(Default)]
pub struct CommonTranslationCache {
    pub app_title: String,
    pub menu_file: String,
    pub menu_file_exit: String,
    pub menu_file_open_test_nbt: String,
    pub menu_file_open_test_nbt_simple: String,
    pub menu_file_open_test_nbt_huge: String,
    pub menu_file_open: String,
    pub menu_file_new: String,
    pub menu_file_save: String,
    pub menu_file_save_as: String,

    pub menu_preferences: String,
    pub menu_preferences_zoom: String,

    pub title_test_nbt: String,
    pub title_untitled: String,

    pub dialog_error: String,

    pub button_delete_text: String,
    pub button_cut_text: String,
    pub button_copy_text: String,
    pub button_paste_text: String,
    pub button_paste_value_text: String,
    pub button_paste_key_value_text: String,
    pub button_paste_above_text: String,
    pub button_paste_below_text: String,
    pub button_confirm_text: String,
    pub button_create_empty_root: String,

    pub root_nbt_empty_text: String,
    pub unnamed_root_nbt_text_hint: String,
    pub editable_key_empty_text: String,
    pub editable_value_empty_text: String,
    pub empty_list_text: String,
    pub compound_simple_value_change_type: String,
    pub compound_array_change_type: String,
    pub compound_simple_value_try_parse: String,
    pub nbt_list_change_type: String,
    pub nbt_list_try_change_type: String,
    pub dt_conv_warn: String,
    pub type_conv_abort_on_fail_text: String,
    pub type_conv_default_on_fail_text: String,
    pub button_list_to_compound_conv: String,

    pub type_hint_empty_list: String,
    pub type_hint_i8: String,
    pub type_hint_u8: String,
    pub type_hint_i16: String,
    pub type_hint_i32: String,
    pub type_hint_i64: String,
    pub type_hint_f32: String,
    pub type_hint_f64: String,
    pub type_hint_str: String,
    pub type_hint_list: String,
    pub type_hint_compound: String,
    pub type_hint_byte_array: String,
    pub type_hint_int_array: String,
    pub type_hint_long_array: String,
    pub type_hint_list_i8: String,
    pub type_hint_list_byte: String,
    pub type_hint_list_byte_arrays: String,
    pub type_hint_list_compounds: String,
    pub type_hint_list_f64: String,
    pub type_hint_list_f32: String,
    pub type_hint_list_i32: String,
    pub type_hint_list_int_arrays: String,
    pub type_hint_list_lists: String,
    pub type_hint_list_i64: String,
    pub type_hint_list_long_arrays: String,
    pub type_hint_list_i16: String,
    pub type_hint_list_strs: String,
}


/// Number of texts that the cache holds.
pub const COMMON_TRANSLATION_COUNT: usize = 66;

/// The translation key of each text of the cache, in the order of its fields.
pub open spec fn spec_common_translation_keys() -> Seq<&'static str> {
    seq![
        "app-title",
        "menu-file",
        "menu-file-exit",
        "menu-file-open-test-nbt",
        "menu-file-open-test-nbt-simple",
        "menu-file-open-test-nbt-huge",
        "menu-file-open",
        "menu-file-new",
        "menu-file-save",
        "menu-file-save-as",
        "menu-preferences",
        "menu-preferences-zoom",
        "title-test-nbt",
        "title-untitled",
        "dialog-error",
        "button-delete-text",
        "button-cut-text",
        "button-copy-text",
        "button-paste-text",
        "button-paste-value-text",
        "button-paste-key-value-text",
        "button-paste-above-text",
        "button-paste-below-text",
        "button-confirm-text",
        "button-create-empty-root",
        "root-nbt-empty-text",
        "unnamed-root-nbt-text-hint",
        "editable-key-empty-text",
        "editable-value-empty-text",
        "empty-list-text",
        "compound-simple-value-change-type",
        "compound-array-change-type",
        "compound-simple-value-try-parse",
        "nbt-list-change-type",
        "nbt-list-try-change-type",
        "dt-conv-warn",
        "type-conv-abort-on-fail-text",
        "type-conv-default-on-fail-text",
        "button-list-to-compound-conv",
        "type-hint_empty-list",
        "type-hint-i8",
        "type-hint-u8",
        "type-hint-i16",
        "type-hint-i32",
        "type-hint-i64",
        "type-hint-f32",
        "type-hint-f64",
        "type-hint-str",
        "type-hint-list",
        "type-hint-compound",
        "type-hint-byte-array",
        "type-hint-int-array",
        "type-hint-long-array",
        "type-hint-list-i8",
        "type-hint-list-byte",
        "type-hint-list-byte-arrays",
        "type-hint-list-compounds",
        "type-hint-list-f64",
        "type-hint-list-f32",
        "type-hint-list-i32",
        "type-hint-list-int-arrays",
        "type-hint-list-lists",
        "type-hint-list-i64",
        "type-hint-list-long-arrays",
        "type-hint-list-i16",
        "type-hint-list-strs",
    ]
}

/// The translation key of each text of the cache, in the order of its fields.
pub fn common_translation_keys() -> (r: Vec<&'static str>)
    ensures
        r@ == spec_common_translation_keys(),
{
    let r = vec![
        "app-title",
        "menu-file",
        "menu-file-exit",
        "menu-file-open-test-nbt",
        "menu-file-open-test-nbt-simple",
        "menu-file-open-test-nbt-huge",
        "menu-file-open",
        "menu-file-new",
        "menu-file-save",
        "menu-file-save-as",
        "menu-preferences",
        "menu-preferences-zoom",
        "title-test-nbt",
        "title-untitled",
        "dialog-error",
        "button-delete-text",
        "button-cut-text",
        "button-copy-text",
        "button-paste-text",
        "button-paste-value-text",
        "button-paste-key-value-text",
        "button-paste-above-text",
        "button-paste-below-text",
        "button-confirm-text",
        "button-create-empty-root",
        "root-nbt-empty-text",
        "unnamed-root-nbt-text-hint",
        "editable-key-empty-text",
        "editable-value-empty-text",
        "empty-list-text",
        "compound-simple-value-change-type",
        "compound-array-change-type",
        "compound-simple-value-try-parse",
        "nbt-list-change-type",
        "nbt-list-try-change-type",
        "dt-conv-warn",
        "type-conv-abort-on-fail-text",
        "type-conv-default-on-fail-text",
        "button-list-to-compound-conv",
        "type-hint_empty-list",
        "type-hint-i8",
        "type-hint-u8",
        "type-hint-i16",
        "type-hint-i32",
        "type-hint-i64",
        "type-hint-f32",
        "type-hint-f64",
        "type-hint-str",
        "type-hint-list",
        "type-hint-compound",
        "type-hint-byte-array",
        "type-hint-int-array",
        "type-hint-long-array",
        "type-hint-list-i8",
        "type-hint-list-byte",
        "type-hint-list-byte-arrays",
        "type-hint-list-compounds",
        "type-hint-list-f64",
        "type-hint-list-f32",
        "type-hint-list-i32",
        "type-hint-list-int-arrays",
        "type-hint-list-lists",
        "type-hint-list-i64",
        "type-hint-list-long-arrays",
        "type-hint-list-i16",
        "type-hint-list-strs",
    ];
    assert(r@ =~= spec_common_translation_keys());
    r
}

/// The key of each text of the cache is its field's name with every `_`
/// written as `-` (the empty-list hint is looked up as
/// `type-hint_empty-list`): `from_texts` puts in each field the text at the
/// index of that field's own key.
pub proof fn lemma_keys_name_their_fields()
    ensures
        spec_common_translation_keys().len() == COMMON_TRANSLATION_COUNT,
        spec_common_translation_keys()[0]@ == "app-title"@,
        spec_common_translation_keys()[1]@ == "menu-file"@,
        spec_common_translation_keys()[2]@ == "menu-file-exit"@,
        spec_common_translation_keys()[3]@ == "menu-file-open-test-nbt"@,
        spec_common_translation_keys()[4]@ == "menu-file-open-test-nbt-simple"@,
        spec_common_translation_keys()[5]@ == "menu-file-open-test-nbt-huge"@,
        spec_common_translation_keys()[6]@ == "menu-file-open"@,
        spec_common_translation_keys()[7]@ == "menu-file-new"@,
        spec_common_translation_keys()[8]@ == "menu-file-save"@,
        spec_common_translation_keys()[9]@ == "menu-file-save-as"@,
        spec_common_translation_keys()[10]@ == "menu-preferences"@,
        spec_common_translation_keys()[11]@ == "menu-preferences-zoom"@,
        spec_common_translation_keys()[12]@ == "title-test-nbt"@,
        spec_common_translation_keys()[13]@ == "title-untitled"@,
        spec_common_translation_keys()[14]@ == "dialog-error"@,
        spec_common_translation_keys()[15]@ == "button-delete-text"@,
        spec_common_translation_keys()[16]@ == "button-cut-text"@,
        spec_common_translation_keys()[17]@ == "button-copy-text"@,
        spec_common_translation_keys()[18]@ == "button-paste-text"@,
        spec_common_translation_keys()[19]@ == "button-paste-value-text"@,
        spec_common_translation_keys()[20]@ == "button-paste-key-value-text"@,
        spec_common_translation_keys()[21]@ == "button-paste-above-text"@,
        spec_common_translation_keys()[22]@ == "button-paste-below-text"@,
        spec_common_translation_keys()[23]@ == "button-confirm-text"@,
        spec_common_translation_keys()[24]@ == "button-create-empty-root"@,
        spec_common_translation_keys()[25]@ == "root-nbt-empty-text"@,
        spec_common_translation_keys()[26]@ == "unnamed-root-nbt-text-hint"@,
        spec_common_translation_keys()[27]@ == "editable-key-empty-text"@,
        spec_common_translation_keys()[28]@ == "editable-value-empty-text"@,
        spec_common_translation_keys()[29]@ == "empty-list-text"@,
        spec_common_translation_keys()[30]@ == "compound-simple-value-change-type"@,
        spec_common_translation_keys()[31]@ == "compound-array-change-type"@,
        spec_common_translation_keys()[32]@ == "compound-simple-value-try-parse"@,
        spec_common_translation_keys()[33]@ == "nbt-list-change-type"@,
        spec_common_translation_keys()[34]@ == "nbt-list-try-change-type"@,
        spec_common_translation_keys()[35]@ == "dt-conv-warn"@,
        spec_common_translation_keys()[36]@ == "type-conv-abort-on-fail-text"@,
        spec_common_translation_keys()[37]@ == "type-conv-default-on-fail-text"@,
        spec_common_translation_keys()[38]@ == "button-list-to-compound-conv"@,
        spec_common_translation_keys()[39]@ == "type-hint_empty-list"@,
        spec_common_translation_keys()[40]@ == "type-hint-i8"@,
        spec_common_translation_keys()[41]@ == "type-hint-u8"@,
        spec_common_translation_keys()[42]@ == "type-hint-i16"@,
        spec_common_translation_keys()[43]@ == "type-hint-i32"@,
        spec_common_translation_keys()[44]@ == "type-hint-i64"@,
        spec_common_translation_keys()[45]@ == "type-hint-f32"@,
        spec_common_translation_keys()[46]@ == "type-hint-f64"@,
        spec_common_translation_keys()[47]@ == "type-hint-str"@,
        spec_common_translation_keys()[48]@ == "type-hint-list"@,
        spec_common_translation_keys()[49]@ == "type-hint-compound"@,
        spec_common_translation_keys()[50]@ == "type-hint-byte-array"@,
        spec_common_translation_keys()[51]@ == "type-hint-int-array"@,
        spec_common_translation_keys()[52]@ == "type-hint-long-array"@,
        spec_common_translation_keys()[53]@ == "type-hint-list-i8"@,
        spec_common_translation_keys()[54]@ == "type-hint-list-byte"@,
        spec_common_translation_keys()[55]@ == "type-hint-list-byte-arrays"@,
        spec_common_translation_keys()[56]@ == "type-hint-list-compounds"@,
        spec_common_translation_keys()[57]@ == "type-hint-list-f64"@,
        spec_common_translation_keys()[58]@ == "type-hint-list-f32"@,
        spec_common_translation_keys()[59]@ == "type-hint-list-i32"@,
        spec_common_translation_keys()[60]@ == "type-hint-list-int-arrays"@,
        spec_common_translation_keys()[61]@ == "type-hint-list-lists"@,
        spec_common_translation_keys()[62]@ == "type-hint-list-i64"@,
        spec_common_translation_keys()[63]@ == "type-hint-list-long-arrays"@,
        spec_common_translation_keys()[64]@ == "type-hint-list-i16"@,
        spec_common_translation_keys()[65]@ == "type-hint-list-strs"@,
{
}

impl CommonTranslationCache {
    /// The cache holding `texts`, the text of each key of
    /// `common_translation_keys`, in the same order.
    pub fn from_texts(texts: Vec<String>) -> (r: Self)
        requires
            texts@.len() == COMMON_TRANSLATION_COUNT,
        ensures
            r.app_title == texts@[0],
            r.menu_file == texts@[1],
            r.menu_file_exit == texts@[2],
            r.menu_file_open_test_nbt == texts@[3],
            r.menu_file_open_test_nbt_simple == texts@[4],
            r.menu_file_open_test_nbt_huge == texts@[5],
            r.menu_file_open == texts@[6],
            r.menu_file_new == texts@[7],
            r.menu_file_save == texts@[8],
            r.menu_file_save_as == texts@[9],
            r.menu_preferences == texts@[10],
            r.menu_preferences_zoom == texts@[11],
            r.title_test_nbt == texts@[12],
            r.title_untitled == texts@[13],
            r.dialog_error == texts@[14],
            r.button_delete_text == texts@[15],
            r.button_cut_text == texts@[16],
            r.button_copy_text == texts@[17],
            r.button_paste_text == texts@[18],
            r.button_paste_value_text == texts@[19],
            r.button_paste_key_value_text == texts@[20],
            r.button_paste_above_text == texts@[21],
            r.button_paste_below_text == texts@[22],
            r.button_confirm_text == texts@[23],
            r.button_create_empty_root == texts@[24],
            r.root_nbt_empty_text == texts@[25],
            r.unnamed_root_nbt_text_hint == texts@[26],
            r.editable_key_empty_text == texts@[27],
            r.editable_value_empty_text == texts@[28],
            r.empty_list_text == texts@[29],
            r.compound_simple_value_change_type == texts@[30],
            r.compound_array_change_type == texts@[31],
            r.compound_simple_value_try_parse == texts@[32],
            r.nbt_list_change_type == texts@[33],
            r.nbt_list_try_change_type == texts@[34],
            r.dt_conv_warn == texts@[35],
            r.type_conv_abort_on_fail_text == texts@[36],
            r.type_conv_default_on_fail_text == texts@[37],
            r.button_list_to_compound_conv == texts@[38],
            r.type_hint_empty_list == texts@[39],
            r.type_hint_i8 == texts@[40],
            r.type_hint_u8 == texts@[41],
            r.type_hint_i16 == texts@[42],
            r.type_hint_i32 == texts@[43],
            r.type_hint_i64 == texts@[44],
            r.type_hint_f32 == texts@[45],
            r.type_hint_f64 == texts@[46],
            r.type_hint_str == texts@[47],
            r.type_hint_list == texts@[48],
            r.type_hint_compound == texts@[49],
            r.type_hint_byte_array == texts@[50],
            r.type_hint_int_array == texts@[51],
            r.type_hint_long_array == texts@[52],
            r.type_hint_list_i8 == texts@[53],
            r.type_hint_list_byte == texts@[54],
            r.type_hint_list_byte_arrays == texts@[55],
            r.type_hint_list_compounds == texts@[56],
            r.type_hint_list_f64 == texts@[57],
            r.type_hint_list_f32 == texts@[58],
            r.type_hint_list_i32 == texts@[59],
            r.type_hint_list_int_arrays == texts@[60],
            r.type_hint_list_lists == texts@[61],
            r.type_hint_list_i64 == texts@[62],
            r.type_hint_list_long_arrays == texts@[63],
            r.type_hint_list_i16 == texts@[64],
            r.type_hint_list_strs == texts@[65],
    {
        let ghost all = texts@;
        let mut texts = texts;
        let type_hint_list_strs = texts.pop().unwrap();
        assert(texts@ =~= all.take(65) && type_hint_list_strs == all[65]);
        let type_hint_list_i16 = texts.pop().unwrap();
        assert(texts@ =~= all.take(64) && type_hint_list_i16 == all[64]);
        let type_hint_list_long_arrays = texts.pop().unwrap();
        assert(texts@ =~= all.take(63) && type_hint_list_long_arrays == all[63]);
        let type_hint_list_i64 = texts.pop().unwrap();
        assert(texts@ =~= all.take(62) && type_hint_list_i64 == all[62]);
        let type_hint_list_lists = texts.pop().unwrap();
        assert(texts@ =~= all.take(61) && type_hint_list_lists == all[61]);
        let type_hint_list_int_arrays = texts.pop().unwrap();
        assert(texts@ =~= all.take(60) && type_hint_list_int_arrays == all[60]);
        let type_hint_list_i32 = texts.pop().unwrap();
        assert(texts@ =~= all.take(59) && type_hint_list_i32 == all[59]);
        let type_hint_list_f32 = texts.pop().unwrap();
        assert(texts@ =~= all.take(58) && type_hint_list_f32 == all[58]);
        let type_hint_list_f64 = texts.pop().unwrap();
        assert(texts@ =~= all.take(57) && type_hint_list_f64 == all[57]);
        let type_hint_list_compounds = texts.pop().unwrap();
        assert(texts@ =~= all.take(56) && type_hint_list_compounds == all[56]);
        let type_hint_list_byte_arrays = texts.pop().unwrap();
        assert(texts@ =~= all.take(55) && type_hint_list_byte_arrays == all[55]);
        let type_hint_list_byte = texts.pop().unwrap();
        assert(texts@ =~= all.take(54) && type_hint_list_byte == all[54]);
        let type_hint_list_i8 = texts.pop().unwrap();
        assert(texts@ =~= all.take(53) && type_hint_list_i8 == all[53]);
        let type_hint_long_array = texts.pop().unwrap();
        assert(texts@ =~= all.take(52) && type_hint_long_array == all[52]);
        let type_hint_int_array = texts.pop().unwrap();
        assert(texts@ =~= all.take(51) && type_hint_int_array == all[51]);
        let type_hint_byte_array = texts.pop().unwrap();
        assert(texts@ =~= all.take(50) && type_hint_byte_array == all[50]);
        let type_hint_compound = texts.pop().unwrap();
        assert(texts@ =~= all.take(49) && type_hint_compound == all[49]);
        let type_hint_list = texts.pop().unwrap();
        assert(texts@ =~= all.take(48) && type_hint_list == all[48]);
        let type_hint_str = texts.pop().unwrap();
        assert(texts@ =~= all.take(47) && type_hint_str == all[47]);
        let type_hint_f64 = texts.pop().unwrap();
        assert(texts@ =~= all.take(46) && type_hint_f64 == all[46]);
        let type_hint_f32 = texts.pop().unwrap();
        assert(texts@ =~= all.take(45) && type_hint_f32 == all[45]);
        let type_hint_i64 = texts.pop().unwrap();
        assert(texts@ =~= all.take(44) && type_hint_i64 == all[44]);
        let type_hint_i32 = texts.pop().unwrap();
        assert(texts@ =~= all.take(43) && type_hint_i32 == all[43]);
        let type_hint_i16 = texts.pop().unwrap();
        assert(texts@ =~= all.take(42) && type_hint_i16 == all[42]);
        let type_hint_u8 = texts.pop().unwrap();
        assert(texts@ =~= all.take(41) && type_hint_u8 == all[41]);
        let type_hint_i8 = texts.pop().unwrap();
        assert(texts@ =~= all.take(40) && type_hint_i8 == all[40]);
        let type_hint_empty_list = texts.pop().unwrap();
        assert(texts@ =~= all.take(39) && type_hint_empty_list == all[39]);
        let button_list_to_compound_conv = texts.pop().unwrap();
        assert(texts@ =~= all.take(38) && button_list_to_compound_conv == all[38]);
        let type_conv_default_on_fail_text = texts.pop().unwrap();
        assert(texts@ =~= all.take(37) && type_conv_default_on_fail_text == all[37]);
        let type_conv_abort_on_fail_text = texts.pop().unwrap();
        assert(texts@ =~= all.take(36) && type_conv_abort_on_fail_text == all[36]);
        let dt_conv_warn = texts.pop().unwrap();
        assert(texts@ =~= all.take(35) && dt_conv_warn == all[35]);
        let nbt_list_try_change_type = texts.pop().unwrap();
        assert(texts@ =~= all.take(34) && nbt_list_try_change_type == all[34]);
        let nbt_list_change_type = texts.pop().unwrap();
        assert(texts@ =~= all.take(33) && nbt_list_change_type == all[33]);
        let compound_simple_value_try_parse = texts.pop().unwrap();
        assert(texts@ =~= all.take(32) && compound_simple_value_try_parse == all[32]);
        let compound_array_change_type = texts.pop().unwrap();
        assert(texts@ =~= all.take(31) && compound_array_change_type == all[31]);
        let compound_simple_value_change_type = texts.pop().unwrap();
        assert(texts@ =~= all.take(30) && compound_simple_value_change_type == all[30]);
        let empty_list_text = texts.pop().unwrap();
        assert(texts@ =~= all.take(29) && empty_list_text == all[29]);
        let editable_value_empty_text = texts.pop().unwrap();
        assert(texts@ =~= all.take(28) && editable_value_empty_text == all[28]);
        let editable_key_empty_text = texts.pop().unwrap();
        assert(texts@ =~= all.take(27) && editable_key_empty_text == all[27]);
        let unnamed_root_nbt_text_hint = texts.pop().unwrap();
        assert(texts@ =~= all.take(26) && unnamed_root_nbt_text_hint == all[26]);
        let root_nbt_empty_text = texts.pop().unwrap();
        assert(texts@ =~= all.take(25) && root_nbt_empty_text == all[25]);
        let button_create_empty_root = texts.pop().unwrap();
        assert(texts@ =~= all.take(24) && button_create_empty_root == all[24]);
        let button_confirm_text = texts.pop().unwrap();
        assert(texts@ =~= all.take(23) && button_confirm_text == all[23]);
        let button_paste_below_text = texts.pop().unwrap();
        assert(texts@ =~= all.take(22) && button_paste_below_text == all[22]);
        let button_paste_above_text = texts.pop().unwrap();
        assert(texts@ =~= all.take(21) && button_paste_above_text == all[21]);
        let button_paste_key_value_text = texts.pop().unwrap();
        assert(texts@ =~= all.take(20) && button_paste_key_value_text == all[20]);
        let button_paste_value_text = texts.pop().unwrap();
        assert(texts@ =~= all.take(19) && button_paste_value_text == all[19]);
        let button_paste_text = texts.pop().unwrap();
        assert(texts@ =~= all.take(18) && button_paste_text == all[18]);
        let button_copy_text = texts.pop().unwrap();
        assert(texts@ =~= all.take(17) && button_copy_text == all[17]);
        let button_cut_text = texts.pop().unwrap();
        assert(texts@ =~= all.take(16) && button_cut_text == all[16]);
        let button_delete_text = texts.pop().unwrap();
        assert(texts@ =~= all.take(15) && button_delete_text == all[15]);
        let dialog_error = texts.pop().unwrap();
        assert(texts@ =~= all.take(14) && dialog_error == all[14]);
        let title_untitled = texts.pop().unwrap();
        assert(texts@ =~= all.take(13) && title_untitled == all[13]);
        let title_test_nbt = texts.pop().unwrap();
        assert(texts@ =~= all.take(12) && title_test_nbt == all[12]);
        let menu_preferences_zoom = texts.pop().unwrap();
        assert(texts@ =~= all.take(11) && menu_preferences_zoom == all[11]);
        let menu_preferences = texts.pop().unwrap();
        assert(texts@ =~= all.take(10) && menu_preferences == all[10]);
        let menu_file_save_as = texts.pop().unwrap();
        assert(texts@ =~= all.take(9) && menu_file_save_as == all[9]);
        let menu_file_save = texts.pop().unwrap();
        assert(texts@ =~= all.take(8) && menu_file_save == all[8]);
        let menu_file_new = texts.pop().unwrap();
        assert(texts@ =~= all.take(7) && menu_file_new == all[7]);
        let menu_file_open = texts.pop().unwrap();
        assert(texts@ =~= all.take(6) && menu_file_open == all[6]);
        let menu_file_open_test_nbt_huge = texts.pop().unwrap();
        assert(texts@ =~= all.take(5) && menu_file_open_test_nbt_huge == all[5]);
        let menu_file_open_test_nbt_simple = texts.pop().unwrap();
        assert(texts@ =~= all.take(4) && menu_file_open_test_nbt_simple == all[4]);
        let menu_file_open_test_nbt = texts.pop().unwrap();
        assert(texts@ =~= all.take(3) && menu_file_open_test_nbt == all[3]);
        let menu_file_exit = texts.pop().unwrap();
        assert(texts@ =~= all.take(2) && menu_file_exit == all[2]);
        let menu_file = texts.pop().unwrap();
        assert(texts@ =~= all.take(1) && menu_file == all[1]);
        let app_title = texts.pop().unwrap();
        assert(texts@ =~= all.take(0) && app_title == all[0]);
        CommonTranslationCache {
            app_title,
            menu_file,
            menu_file_exit,
            menu_file_open_test_nbt,
            menu_file_open_test_nbt_simple,
            menu_file_open_test_nbt_huge,
            menu_file_open,
            menu_file_new,
            menu_file_save,
            menu_file_save_as,
            menu_preferences,
            menu_preferences_zoom,
            title_test_nbt,
            title_untitled,
            dialog_error,
            button_delete_text,
            button_cut_text,
            button_copy_text,
            button_paste_text,
            button_paste_value_text,
            button_paste_key_value_text,
            button_paste_above_text,
            button_paste_below_text,
            button_confirm_text,
            button_create_empty_root,
            root_nbt_empty_text,
            unnamed_root_nbt_text_hint,
            editable_key_empty_text,
            editable_value_empty_text,
            empty_list_text,
            compound_simple_value_change_type,
            compound_array_change_type,
            compound_simple_value_try_parse,
            nbt_list_change_type,
            nbt_list_try_change_type,
            dt_conv_warn,
            type_conv_abort_on_fail_text,
            type_conv_default_on_fail_text,
            button_list_to_compound_conv,
            type_hint_empty_list,
            type_hint_i8,
            type_hint_u8,
            type_hint_i16,
            type_hint_i32,
            type_hint_i64,
            type_hint_f32,
            type_hint_f64,
            type_hint_str,
            type_hint_list,
            type_hint_compound,
            type_hint_byte_array,
            type_hint_int_array,
            type_hint_long_array,
            type_hint_list_i8,
            type_hint_list_byte,
            type_hint_list_byte_arrays,
            type_hint_list_compounds,
            type_hint_list_f64,
            type_hint_list_f32,
            type_hint_list_i32,
            type_hint_list_int_arrays,
            type_hint_list_lists,
            type_hint_list_i64,
            type_hint_list_long_arrays,
            type_hint_list_i16,
            type_hint_list_strs,
        }
    }
}

} // verus!
